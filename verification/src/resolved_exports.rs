//! The names each module exports once re-export chains are followed, and
//! detection of names that two `export *` sources both provide.

use vstd::prelude::*;

use crate::model::{ExportEntry, ExportSource, Module, ModuleIdx, ModuleTable, resolve_internal};
use crate::text::{push_str, str_eq, string_clone};

verus! {

/// The exported names of the modules processed so far, by module index.
pub type KnownNames = Seq<Seq<Seq<char>>>;

/// Whether an export entry of `m` names something that can be resolved: a
/// local export always can; `export { X } from "./mod"` when `./mod` is an
/// internal module already processed that exports `X`.
pub open spec fn own_export_resolves(entry: ExportEntry, m: Module, known: KnownNames) -> bool {
    match entry.source {
        ExportSource::SourceReexport { specifier, imported_name } => match resolve_internal(m, specifier@) {
            Some(ti) => ti < known.len() && known[ti as int].contains(imported_name@),
            None => false,
        },
        _ => true,
    }
}

/// The names that the export entries `exports` of `m` provide, in order.
pub open spec fn own_export_names(exports: Seq<(String, ExportEntry)>, m: Module, known: KnownNames) -> Seq<Seq<char>>
    decreases exports.len(),
{
    if exports.len() == 0 {
        Seq::empty()
    } else {
        let prev = own_export_names(exports.drop_last(), m, known);
        let name = exports.last().0@;
        if own_export_resolves(exports.last().1, m, known) && !prev.contains(name) {
            prev.push(name)
        } else {
            prev
        }
    }
}

/// The modules of the plain `export * from` statements among `stars` that
/// resolve to an internal module already processed (one of the first
/// `processed`), in order.
pub open spec fn star_targets(stars: Seq<crate::model::StarReexport>, m: Module, processed: int) -> Seq<ModuleIdx>
    decreases stars.len(),
{
    if stars.len() == 0 {
        Seq::empty()
    } else {
        let prev = star_targets(stars.drop_last(), m, processed);
        let st = stars.last();
        if st.alias is None {
            match resolve_internal(m, st.specifier@) {
                Some(ti) => if ti < processed { prev.push(ti) } else { prev },
                None => prev,
            }
        } else {
            prev
        }
    }
}

/// The first value keyed `n` in an association list.
pub open spec fn first_source(c: Seq<(Seq<char>, ModuleIdx)>, n: Seq<char>) -> Option<ModuleIdx>
    decreases c.len(),
{
    if c.len() == 0 {
        None
    } else if c[0].0 == n {
        Some(c[0].1)
    } else {
        first_source(c.drop_first(), n)
    }
}

/// The state of the star re-export merge of one module: the names exported
/// so far, which star source contributed each name, and the conflicts found.
pub struct StarMerge {
    pub names: Seq<Seq<char>>,
    pub contributed: Seq<(Seq<char>, ModuleIdx)>,
    pub conflicts: Seq<(Seq<char>, ModuleIdx, ModuleIdx)>,
}

/// One name `n` offered by the star source `t`: `default` and the module's
/// own names are never taken from a star source; the first star source that
/// offers a name provides it; a later, different source offering it is a
/// conflict `(n, first source, later source)`.
pub open spec fn star_name_step(st: StarMerge, own: Seq<Seq<char>>, t: ModuleIdx, n: Seq<char>) -> StarMerge {
    if n == "default"@ || own.contains(n) {
        st
    } else {
        match first_source(st.contributed, n) {
            Some(prev) => if prev != t {
                StarMerge { names: st.names, contributed: st.contributed, conflicts: st.conflicts.push((n, prev, t)) }
            } else {
                st
            },
            None => StarMerge {
                names: st.names.push(n),
                contributed: st.contributed.push((n, t)),
                conflicts: st.conflicts,
            },
        }
    }
}

/// The names `ns` of star source `t`, offered in order.
pub open spec fn star_names_step(st: StarMerge, own: Seq<Seq<char>>, t: ModuleIdx, ns: Seq<Seq<char>>) -> StarMerge
    decreases ns.len(),
{
    if ns.len() == 0 {
        st
    } else {
        star_name_step(star_names_step(st, own, t, ns.drop_last()), own, t, ns.last())
    }
}

/// The star sources `targets`, merged in order.
pub open spec fn star_fold(st: StarMerge, own: Seq<Seq<char>>, targets: Seq<ModuleIdx>, known: KnownNames) -> StarMerge
    decreases targets.len(),
{
    if targets.len() == 0 {
        st
    } else {
        let prev = star_fold(st, own, targets.drop_last(), known);
        star_names_step(prev, own, targets.last(), known[targets.last() as int])
    }
}

/// The result of resolving the exports of `m`, given the names of the
/// modules before it.
pub open spec fn module_merge(m: Module, known: KnownNames) -> StarMerge {
    let own = own_export_names(m.export_import_info.named_exports@, m, known);
    let start = StarMerge { names: own, contributed: Seq::empty(), conflicts: Seq::empty() };
    star_fold(start, own, star_targets(m.export_import_info.star_reexports@, m, known.len() as int), known)
}

/// The exported names of the first `n` modules of `t`, each module resolved
/// against those before it.
pub open spec fn known_names(t: Seq<Module>, n: nat) -> KnownNames
    decreases n,
{
    if n == 0 {
        Seq::empty()
    } else {
        let k = known_names(t, (n - 1) as nat);
        k.push(module_merge(t[n - 1], k).names)
    }
}

/// A star export conflict: module `module` receives `name` from both `first`
/// and `second` through `export *`.
pub struct StarExportConflict {
    pub module: ModuleIdx,
    pub name: String,
    pub first: ModuleIdx,
    pub second: ModuleIdx,
}

impl View for StarExportConflict {
    type V = (ModuleIdx, Seq<char>, ModuleIdx, ModuleIdx);

    open spec fn view(&self) -> (ModuleIdx, Seq<char>, ModuleIdx, ModuleIdx) {
        (self.module, self.name@, self.first, self.second)
    }
}

/// The conflicts found in the first `n` modules of `t`, module by module.
pub open spec fn conflicts_upto(t: Seq<Module>, n: nat) -> Seq<(ModuleIdx, Seq<char>, ModuleIdx, ModuleIdx)>
    decreases n,
{
    if n == 0 {
        Seq::empty()
    } else {
        let k = known_names(t, (n - 1) as nat);
        let here = module_merge(t[n - 1], k).conflicts;
        conflicts_upto(t, (n - 1) as nat) + here.map_values(
            |c: (Seq<char>, ModuleIdx, ModuleIdx)| ((n - 1) as ModuleIdx, c.0, c.1, c.2),
        )
    }
}

/// The views of a list of names.
pub open spec fn name_views(v: Seq<String>) -> Seq<Seq<char>> {
    v.map_values(|s: String| s@)
}

/// The views of the per-module name lists.
pub open spec fn known_views(v: Seq<Vec<String>>) -> KnownNames {
    v.map_values(|x: Vec<String>| name_views(x@))
}

/// The views of a contribution list.
pub open spec fn contributed_views(v: Seq<(String, ModuleIdx)>) -> Seq<(Seq<char>, ModuleIdx)> {
    v.map_values(|x: (String, ModuleIdx)| (x.0@, x.1))
}

/// Whether `names` holds `n`.
fn names_contain(names: &Vec<String>, n: &str) -> (r: bool)
    ensures
        r == name_views(names@).contains(n@),
{
    let ghost views = name_views(names@);
    let mut i: usize = 0;
    while i < names.len()
        invariant
            0 <= i <= names@.len(),
            views == name_views(names@),
            forall|j: int| 0 <= j < i ==> views[j] != n@,
        decreases names@.len() - i,
    {
        if str_eq(names[i].as_str(), n) {
            assert(views[i as int] == n@);
            return true;
        }
        i += 1;
    }
    false
}

/// The star source that contributed `n`, if any.
fn find_source(contributed: &Vec<(String, ModuleIdx)>, n: &str) -> (r: Option<ModuleIdx>)
    ensures
        r == first_source(contributed_views(contributed@), n@),
{
    let ghost views = contributed_views(contributed@);
    let mut i: usize = 0;
    assert(views.skip(0) =~= views);
    while i < contributed.len()
        invariant
            0 <= i <= views.len(),
            views == contributed_views(contributed@),
            first_source(views, n@) == first_source(views.skip(i as int), n@),
        decreases views.len() - i,
    {
        assert(views.skip(i as int).drop_first() =~= views.skip(i + 1));
        if str_eq(contributed[i].0.as_str(), n) {
            return Some(contributed[i].1);
        }
        i += 1;
    }
    None
}

/// The names that the export entries of `m` provide on their own.
fn collect_own_export_names(m: &Module, resolved: &Vec<Vec<String>>) -> (own: Vec<String>)
    ensures
        name_views(own@) == own_export_names(m.export_import_info.named_exports@, *m, known_views(resolved@)),
{
    let ghost known = known_views(resolved@);
    let exports = &m.export_import_info.named_exports;
    let mut own: Vec<String> = Vec::new();
    let mut i: usize = 0;
    while i < exports.len()
        invariant
            0 <= i <= exports@.len(),
            known == known_views(resolved@),
            exports == m.export_import_info.named_exports,
            name_views(own@) == own_export_names(exports@.take(i as int), *m, known),
        decreases exports@.len() - i,
    {
        let (name, entry) = (&exports[i].0, &exports[i].1);
        proof {
            let t = exports@.take(i + 1);
            assert(t.drop_last() =~= exports@.take(i as int));
            assert(t.last() == exports@[i as int]);
        }
        let resolves = match &entry.source {
            ExportSource::SourceReexport { specifier, imported_name } => match m.resolve_internal_specifier(specifier.as_str()) {
                Some(ti) => {
                    if ti < resolved.len() {
                        assert(known[ti as int] == name_views(resolved@[ti as int]@));
                        names_contain(&resolved[ti], imported_name.as_str())
                    } else {
                        false
                    }
                },
                None => false,
            },
            _ => true,
        };
        if resolves && !names_contain(&own, name.as_str()) {
            own.push(string_clone(name.as_str()));
            assert(name_views(own@) =~= own_export_names(exports@.take(i as int), *m, known).push(name@));
        }
        i += 1;
    }
    assert(exports@.take(i as int) =~= exports@);
    own
}

/// The star sources of `m` to merge, in order.
fn collect_star_targets(m: &Module, resolved_len: usize) -> (targets: Vec<ModuleIdx>)
    ensures
        targets@ == star_targets(m.export_import_info.star_reexports@, *m, resolved_len as int),
{
    let stars = &m.export_import_info.star_reexports;
    let mut targets: Vec<ModuleIdx> = Vec::new();
    let mut i: usize = 0;
    while i < stars.len()
        invariant
            0 <= i <= stars@.len(),
            stars == m.export_import_info.star_reexports,
            targets@ == star_targets(stars@.take(i as int), *m, resolved_len as int),
        decreases stars@.len() - i,
    {
        proof {
            let t = stars@.take(i + 1);
            assert(t.drop_last() =~= stars@.take(i as int));
            assert(t.last() == stars@[i as int]);
        }
        let st = &stars[i];
        if st.alias.is_none() {
            match m.resolve_internal_specifier(st.specifier.as_str()) {
                Some(ti) => {
                    if ti < resolved_len {
                        targets.push(ti);
                    }
                },
                None => {},
            }
        }
        i += 1;
    }
    assert(stars@.take(i as int) =~= stars@);
    targets
}

/// Merges the names of the star sources `targets` of one module into its own
/// names; returns the module's names and the conflicts found.
fn merge_star_sources(own: Vec<String>, targets: &Vec<ModuleIdx>, resolved: &Vec<Vec<String>>) -> (r: (
    Vec<String>,
    Vec<(String, ModuleIdx, ModuleIdx)>,
))
    requires
        forall|j: int| 0 <= j < targets@.len() ==> (#[trigger] targets@[j]) < resolved@.len(),
    ensures
        ({
            let own_v = name_views(own@);
            let start = StarMerge { names: own_v, contributed: Seq::empty(), conflicts: Seq::empty() };
            let fin = star_fold(start, own_v, targets@, known_views(resolved@));
            &&& name_views(r.0@) == fin.names
            &&& r.1@.map_values(|c: (String, ModuleIdx, ModuleIdx)| (c.0@, c.1, c.2)) == fin.conflicts
        }),
{
    let ghost known = known_views(resolved@);
    let ghost own_v = name_views(own@);
    let ghost start = StarMerge { names: own_v, contributed: Seq::empty(), conflicts: Seq::empty() };
    let mut names: Vec<String> = Vec::new();
    let mut c: usize = 0;
    while c < own.len()
        invariant
            0 <= c <= own@.len(),
            own_v == name_views(own@),
            name_views(names@) == own_v.take(c as int),
        decreases own@.len() - c,
    {
        let ghost names_before = names@;
        names.push(string_clone(own[c].as_str()));
        assert(own_v[c as int] == own@[c as int]@);
        assert(name_views(names@) =~= name_views(names_before).push(own_v[c as int]));
        assert(own_v.take(c + 1) =~= own_v.take(c as int).push(own_v[c as int]));
        c += 1;
    }
    assert(own_v.take(c as int) =~= own_v);
    let mut contributed: Vec<(String, ModuleIdx)> = Vec::new();
    let mut conflicts: Vec<(String, ModuleIdx, ModuleIdx)> = Vec::new();
    let mut j: usize = 0;
    while j < targets.len()
        invariant
            0 <= j <= targets@.len(),
            forall|k: int| 0 <= k < targets@.len() ==> (#[trigger] targets@[k]) < resolved@.len(),
            known == known_views(resolved@),
            own_v == name_views(own@),
            ({
                let st = star_fold(start, own_v, targets@.take(j as int), known);
                &&& name_views(names@) == st.names
                &&& contributed_views(contributed@) == st.contributed
                &&& conflicts@.map_values(|c: (String, ModuleIdx, ModuleIdx)| (c.0@, c.1, c.2)) == st.conflicts
            }),
        decreases targets@.len() - j,
    {
        let t = targets[j];
        let source_names = &resolved[t];
        let ghost ns = known[t as int];
        assert(ns == name_views(source_names@));
        let ghost st0 = star_fold(start, own_v, targets@.take(j as int), known);
        let mut k: usize = 0;
        while k < source_names.len()
            invariant
                0 <= k <= ns.len(),
                ns == name_views(source_names@),
                own_v == name_views(own@),
                ({
                    let st = star_names_step(st0, own_v, t, ns.take(k as int));
                    &&& name_views(names@) == st.names
                    &&& contributed_views(contributed@) == st.contributed
                    &&& conflicts@.map_values(|c: (String, ModuleIdx, ModuleIdx)| (c.0@, c.1, c.2)) == st.conflicts
                }),
            decreases ns.len() - k,
        {
            let n = source_names[k].as_str();
            proof {
                let tk = ns.take(k + 1);
                assert(tk.drop_last() =~= ns.take(k as int));
                assert(tk.last() == n@);
            }
            let ghost conflicts_before = conflicts@;
            let ghost names_before = names@;
            let ghost contributed_before = contributed@;
            if !str_eq(n, "default") && !names_contain(&own, n) {
                match find_source(&contributed, n) {
                    Some(prev) => {
                        if prev != t {
                            conflicts.push((string_clone(n), prev, t));
                            assert(conflicts@.map_values(|c: (String, ModuleIdx, ModuleIdx)| (c.0@, c.1, c.2))
                                =~= conflicts_before.map_values(|c: (String, ModuleIdx, ModuleIdx)| (c.0@, c.1, c.2)).push((n@, prev, t)));
                        }
                    },
                    None => {
                        names.push(string_clone(n));
                        contributed.push((string_clone(n), t));
                        assert(name_views(names@) =~= name_views(names_before).push(n@));
                        assert(contributed_views(contributed@) =~= contributed_views(contributed_before).push((n@, t)));
                    },
                }
            }
            k += 1;
        }
        proof {
            assert(ns.take(k as int) =~= ns);
            let tj = targets@.take(j + 1);
            assert(tj.drop_last() =~= targets@.take(j as int));
            assert(tj.last() == t);
        }
        j += 1;
    }
    assert(targets@.take(j as int) =~= targets@);
    (names, conflicts)
}

/// Resolves the exports of every module, in table order (each module against
/// the modules before it), following `export { X } from` chains and merging
/// plain `export *` sources, and returns the names that two different star
/// sources of one module both provide: for each module, for each star source
/// in order and each name it offers, a conflict with the first source that
/// offered the name.
pub fn build_resolved_exports(table: &ModuleTable) -> (r: Vec<StarExportConflict>)
    requires
        table.wf(),
    ensures
        r@.map_values(|c: StarExportConflict| c@) == conflicts_upto(table.modules@, table.modules@.len()),
{
    let mut resolved: Vec<Vec<String>> = Vec::new();
    let mut out: Vec<StarExportConflict> = Vec::new();
    let mut mi: usize = 0;
    while mi < table.modules.len()
        invariant
            0 <= mi <= table.modules@.len(),
            table.wf(),
            resolved@.len() == mi,
            known_views(resolved@) == known_names(table.modules@, mi as nat),
            out@.map_values(|c: StarExportConflict| c@) == conflicts_upto(table.modules@, mi as nat),
        decreases table.modules@.len() - mi,
    {
        let m = &table.modules[mi];
        let ghost known = known_views(resolved@);
        let own = collect_own_export_names(m, &resolved);
        let targets = collect_star_targets(m, resolved.len());
        proof {
            lemma_star_targets_bounded(m.export_import_info.star_reexports@, *m, known.len() as int);
        }
        let (names, conflicts) = merge_star_sources(own, &targets, &resolved);
        let ghost here = module_merge(*m, known).conflicts;
        let ghost out_before = out@;
        let mut q: usize = 0;
        while q < conflicts.len()
            invariant
                0 <= q <= conflicts@.len(),
                conflicts@.map_values(|c: (String, ModuleIdx, ModuleIdx)| (c.0@, c.1, c.2)) == here,
                out@.map_values(|c: StarExportConflict| c@) == out_before.map_values(|c: StarExportConflict| c@)
                    + here.take(q as int).map_values(|c: (Seq<char>, ModuleIdx, ModuleIdx)| (mi as ModuleIdx, c.0, c.1, c.2)),
            decreases conflicts@.len() - q,
        {
            let c = &conflicts[q];
            assert(here[q as int] == (c.0@, c.1, c.2));
            let ghost out_prev = out@;
            out.push(StarExportConflict { module: mi, name: string_clone(c.0.as_str()), first: c.1, second: c.2 });
            assert(here.take(q + 1) =~= here.take(q as int).push(here[q as int]));
            assert(out@.map_values(|c: StarExportConflict| c@) =~= out_prev.map_values(|c: StarExportConflict| c@).push(
                (mi as ModuleIdx, here[q as int].0, here[q as int].1, here[q as int].2)));
            q += 1;
        }
        assert(here.take(q as int) =~= here);
        resolved.push(names);
        assert(known_views(resolved@) =~= known.push(module_merge(*m, known).names));
        mi += 1;
    }
    out
}

/// Every star target is a module already processed.
proof fn lemma_star_targets_bounded(stars: Seq<crate::model::StarReexport>, m: Module, processed: int)
    ensures
        forall|j: int| 0 <= j < star_targets(stars, m, processed).len()
            ==> (#[trigger] star_targets(stars, m, processed)[j]) < processed,
    decreases stars.len(),
{
    if stars.len() > 0 {
        lemma_star_targets_bounded(stars.drop_last(), m, processed);
        let prev = star_targets(stars.drop_last(), m, processed);
        let r = star_targets(stars, m, processed);
        assert forall|j: int| 0 <= j < r.len() implies (#[trigger] r[j]) < processed by {
            if j < prev.len() {
                assert(r[j] == prev[j]);
            }
        }
    }
}

/// What holds of a merge state built from own names `own` and sources among
/// the modules known: the own names come first, every contribution comes
/// from a source offering the name, and every conflict pairs two different
/// sources that both offer a name that is neither `default` nor an own name.
pub open spec fn merge_state_ok(st: StarMerge, own: Seq<Seq<char>>, known: KnownNames) -> bool {
    &&& own.len() <= st.names.len()
    &&& st.names.take(own.len() as int) == own
    &&& forall|i: int| 0 <= i < st.contributed.len() ==> {
        let c = #[trigger] st.contributed[i];
        &&& c.1 < known.len()
        &&& known[c.1 as int].contains(c.0)
    }
    &&& forall|i: int| 0 <= i < st.conflicts.len() ==> {
        let c = #[trigger] st.conflicts[i];
        &&& c.1 != c.2
        &&& c.0 != "default"@
        &&& !own.contains(c.0)
        &&& c.1 < known.len() && c.2 < known.len()
        &&& known[c.1 as int].contains(c.0)
        &&& known[c.2 as int].contains(c.0)
    }
}

proof fn lemma_first_source_in(c: Seq<(Seq<char>, ModuleIdx)>, n: Seq<char>)
    ensures
        first_source(c, n) matches Some(t) ==> exists|i: int| 0 <= i < c.len() && #[trigger] c[i] == (n, t),
    decreases c.len(),
{
    if c.len() > 0 && c[0].0 != n {
        lemma_first_source_in(c.drop_first(), n);
        if let Some(t) = first_source(c, n) {
            let i = choose|i: int| 0 <= i < c.drop_first().len() && #[trigger] c.drop_first()[i] == (n, t);
            assert(c[i + 1] == (n, t));
        }
    }
}

proof fn lemma_star_names_step_ok(st: StarMerge, own: Seq<Seq<char>>, t: ModuleIdx, ns: Seq<Seq<char>>, known: KnownNames)
    requires
        merge_state_ok(st, own, known),
        t < known.len(),
        forall|i: int| 0 <= i < ns.len() ==> known[t as int].contains(#[trigger] ns[i]),
    ensures
        merge_state_ok(star_names_step(st, own, t, ns), own, known),
    decreases ns.len(),
{
    if ns.len() > 0 {
        lemma_star_names_step_ok(st, own, t, ns.drop_last(), known);
        let s0 = star_names_step(st, own, t, ns.drop_last());
        let n = ns.last();
        assert(known[t as int].contains(n));
        lemma_first_source_in(s0.contributed, n);
        let s1 = star_name_step(s0, own, t, n);
        if !(n == "default"@ || own.contains(n)) {
            match first_source(s0.contributed, n) {
                Some(prev) => {
                    if prev != t {
                        let i = choose|i: int| 0 <= i < s0.contributed.len() && #[trigger] s0.contributed[i] == (n, prev);
                        assert(known[prev as int].contains(n));
                        assert forall|i: int| 0 <= i < s1.conflicts.len() implies {
                            let c = #[trigger] s1.conflicts[i];
                            &&& c.1 != c.2
                            &&& c.0 != "default"@
                            &&& !own.contains(c.0)
                            &&& c.1 < known.len() && c.2 < known.len()
                            &&& known[c.1 as int].contains(c.0)
                            &&& known[c.2 as int].contains(c.0)
                        } by {
                            if i < s0.conflicts.len() {
                                assert(s1.conflicts[i] == s0.conflicts[i]);
                            }
                        }
                    }
                },
                None => {
                    assert(s1.names.take(own.len() as int) =~= s0.names.take(own.len() as int));
                    assert forall|i: int| 0 <= i < s1.contributed.len() implies {
                        let c = #[trigger] s1.contributed[i];
                        &&& c.1 < known.len()
                        &&& known[c.1 as int].contains(c.0)
                    } by {
                        if i < s0.contributed.len() {
                            assert(s1.contributed[i] == s0.contributed[i]);
                        }
                    }
                },
            }
        }
    }
}

proof fn lemma_star_fold_ok(st: StarMerge, own: Seq<Seq<char>>, targets: Seq<ModuleIdx>, known: KnownNames)
    requires
        merge_state_ok(st, own, known),
        forall|j: int| 0 <= j < targets.len() ==> (#[trigger] targets[j]) < known.len(),
    ensures
        merge_state_ok(star_fold(st, own, targets, known), own, known),
    decreases targets.len(),
{
    if targets.len() > 0 {
        lemma_star_fold_ok(st, own, targets.drop_last(), known);
        let t = targets.last();
        let ns = known[t as int];
        assert forall|i: int| 0 <= i < ns.len() implies known[t as int].contains(#[trigger] ns[i]) by {
            assert(ns[i] == known[t as int][i]);
        }
        lemma_star_names_step_ok(star_fold(st, own, targets.drop_last(), known), own, t, ns, known);
    }
}

/// Law: a module's own exports come first among its exported names and take
/// precedence over star sources; a conflict names two different star sources
/// that both export the name, which is neither `default` nor one of the
/// module's own exports.
pub proof fn law_star_exports(m: Module, known: KnownNames)
    ensures
        ({
            let own = own_export_names(m.export_import_info.named_exports@, m, known);
            let r = module_merge(m, known);
            &&& own.len() <= r.names.len()
            &&& r.names.take(own.len() as int) == own
            &&& forall|i: int| 0 <= i < r.conflicts.len() ==> {
                let c = #[trigger] r.conflicts[i];
                &&& c.1 != c.2
                &&& c.0 != "default"@
                &&& !own.contains(c.0)
                &&& c.1 < known.len() && c.2 < known.len()
                &&& known[c.1 as int].contains(c.0)
                &&& known[c.2 as int].contains(c.0)
            }
        }),
{
    let own = own_export_names(m.export_import_info.named_exports@, m, known);
    let start = StarMerge { names: own, contributed: Seq::empty(), conflicts: Seq::empty() };
    assert(own.take(own.len() as int) =~= own);
    lemma_star_targets_bounded(m.export_import_info.star_reexports@, m, known.len() as int);
    lemma_star_fold_ok(start, own, star_targets(m.export_import_info.star_reexports@, m, known.len() as int), known);
}

/// Some conflict of `st` is about name `n`.
pub open spec fn has_conflict(st: StarMerge, n: Seq<char>) -> bool {
    exists|k: int| 0 <= k < st.conflicts.len() && (#[trigger] st.conflicts[k]).0 == n
}

proof fn lemma_first_source_push(c: Seq<(Seq<char>, ModuleIdx)>, x: (Seq<char>, ModuleIdx), n: Seq<char>)
    ensures
        first_source(c.push(x), n) == match first_source(c, n) {
            Some(s) => Some(s),
            None => if x.0 == n { Some(x.1) } else { None },
        },
    decreases c.len(),
{
    if c.len() == 0 {
        assert(c.push(x) =~= seq![x]);
        assert(seq![x].drop_first() =~= Seq::<(Seq<char>, ModuleIdx)>::empty());
    } else {
        assert(c.push(x).drop_first() =~= c.drop_first().push(x));
        lemma_first_source_push(c.drop_first(), x, n);
    }
}

proof fn lemma_name_step_keeps(st: StarMerge, own: Seq<Seq<char>>, t: ModuleIdx, m: Seq<char>, n: Seq<char>)
    requires
        n != "default"@,
        !own.contains(n),
    ensures
        ({
            let nx = star_name_step(st, own, t, m);
            &&& has_conflict(st, n) ==> has_conflict(nx, n)
            &&& first_source(st.contributed, n) is Some ==> first_source(nx.contributed, n) == first_source(st.contributed, n)
            &&& m == n ==> first_source(nx.contributed, n) is Some
            &&& m == n && first_source(nx.contributed, n) != Some(t) ==> has_conflict(nx, n)
            &&& m != n ==> first_source(nx.contributed, n) == first_source(st.contributed, n)
        }),
{
    let nx = star_name_step(st, own, t, m);
    assert(nx.conflicts.len() >= st.conflicts.len());
    assert(forall|k: int| 0 <= k < st.conflicts.len() ==> nx.conflicts[k] == st.conflicts[k]);
    if has_conflict(st, n) {
        let k = choose|k: int| 0 <= k < st.conflicts.len() && (#[trigger] st.conflicts[k]).0 == n;
        assert(nx.conflicts[k] == st.conflicts[k]);
    }
    if !(m == "default"@ || own.contains(m)) {
        match first_source(st.contributed, m) {
            Some(prev) => {
                if prev != t {
                    if has_conflict(st, n) {
                        let k = choose|k: int| 0 <= k < st.conflicts.len() && (#[trigger] st.conflicts[k]).0 == n;
                        assert(nx.conflicts[k] == st.conflicts[k]);
                    }
                    if m == n {
                        assert(nx.conflicts[st.conflicts.len() as int].0 == n);
                    }
                }
            },
            None => {
                lemma_first_source_push(st.contributed, (m, t), n);
            },
        }
    }
}

proof fn lemma_names_step(st: StarMerge, own: Seq<Seq<char>>, t: ModuleIdx, ns: Seq<Seq<char>>, n: Seq<char>)
    requires
        n != "default"@,
        !own.contains(n),
    ensures
        ({
            let nx = star_names_step(st, own, t, ns);
            &&& has_conflict(st, n) ==> has_conflict(nx, n)
            &&& first_source(st.contributed, n) is Some ==> first_source(nx.contributed, n) == first_source(st.contributed, n)
            &&& ns.contains(n) ==> first_source(nx.contributed, n) is Some
            &&& ns.contains(n) && first_source(nx.contributed, n) != Some(t) ==> has_conflict(nx, n)
            &&& !ns.contains(n) ==> first_source(nx.contributed, n) == first_source(st.contributed, n)
        }),
    decreases ns.len(),
{
    if ns.len() > 0 {
        let d = ns.drop_last();
        lemma_names_step(st, own, t, d, n);
        let mid = star_names_step(st, own, t, d);
        lemma_name_step_keeps(mid, own, t, ns.last(), n);
        assert(ns =~= d.push(ns.last()));
        if ns.contains(n) && !d.contains(n) {
            assert(ns.last() == n) by {
                let k = choose|k: int| 0 <= k < ns.len() && ns[k] == n;
                if k < d.len() {
                    assert(d[k] == n);
                }
            }
        }
        if !ns.contains(n) {
            assert(!d.contains(n)) by {
                if d.contains(n) {
                    let k = choose|k: int| 0 <= k < d.len() && d[k] == n;
                    assert(ns[k] == n);
                }
            }
            assert(ns.last() != n) by {
                assert(ns[ns.len() - 1] == ns.last());
            }
        }
    }
}

proof fn lemma_fold_after(st: StarMerge, own: Seq<Seq<char>>, targets: Seq<ModuleIdx>, known: KnownNames, n: Seq<char>, i: int, len: int)
    requires
        n != "default"@,
        !own.contains(n),
        0 <= i < len <= targets.len(),
        forall|x: int| 0 <= x < targets.len() ==> (#[trigger] targets[x]) < known.len(),
        known[targets[i] as int].contains(n),
    ensures
        ({
            let f = star_fold(st, own, targets.take(len), known);
            &&& first_source(f.contributed, n) is Some
            &&& first_source(f.contributed, n) != Some(targets[i]) ==> has_conflict(f, n)
            &&& first_source(f.contributed, n) == first_source(star_fold(st, own, targets.take(i + 1), known).contributed, n)
        }),
    decreases len,
{
    let tk = targets.take(len);
    assert(tk.drop_last() =~= targets.take(len - 1));
    assert(tk.last() == targets[len - 1]);
    if len == i + 1 {
        let mid = star_fold(st, own, targets.take(i), known);
        lemma_names_step(mid, own, targets[i], known[targets[i] as int], n);
    } else {
        lemma_fold_after(st, own, targets, known, n, i, len - 1);
        let mid = star_fold(st, own, targets.take(len - 1), known);
        lemma_names_step(mid, own, targets[len - 1], known[targets[len - 1] as int], n);
    }
}

proof fn lemma_fold_conflict(st: StarMerge, own: Seq<Seq<char>>, targets: Seq<ModuleIdx>, known: KnownNames, n: Seq<char>, i: int, j: int, len: int)
    requires
        n != "default"@,
        !own.contains(n),
        0 <= i < j < len <= targets.len(),
        targets[i] != targets[j],
        forall|x: int| 0 <= x < targets.len() ==> (#[trigger] targets[x]) < known.len(),
        known[targets[i] as int].contains(n),
        known[targets[j] as int].contains(n),
    ensures
        has_conflict(star_fold(st, own, targets.take(len), known), n),
    decreases len,
{
    let tk = targets.take(len);
    assert(tk.drop_last() =~= targets.take(len - 1));
    assert(tk.last() == targets[len - 1]);
    let mid = star_fold(st, own, targets.take(len - 1), known);
    lemma_names_step(mid, own, targets[len - 1], known[targets[len - 1] as int], n);
    if len - 1 > j {
        lemma_fold_conflict(st, own, targets, known, n, i, j, len - 1);
    } else {
        lemma_fold_after(st, own, targets, known, n, i, len - 1);
    }
}

/// Law: when two different star sources of a module both export a name
/// that is neither `default` nor one of the module's own exports, a
/// conflict about that name is reported.
pub proof fn law_star_conflict_reported(m: Module, known: KnownNames, i: int, j: int, n: Seq<char>)
    requires
        ({
            let targets = star_targets(m.export_import_info.star_reexports@, m, known.len() as int);
            &&& 0 <= i < j < targets.len()
            &&& targets[i] != targets[j]
            &&& known[targets[i] as int].contains(n)
            &&& known[targets[j] as int].contains(n)
        }),
        n != "default"@,
        !own_export_names(m.export_import_info.named_exports@, m, known).contains(n),
    ensures
        has_conflict(module_merge(m, known), n),
{
    let own = own_export_names(m.export_import_info.named_exports@, m, known);
    let start = StarMerge { names: own, contributed: Seq::empty(), conflicts: Seq::empty() };
    let targets = star_targets(m.export_import_info.star_reexports@, m, known.len() as int);
    lemma_star_targets_bounded(m.export_import_info.star_reexports@, m, known.len() as int);
    lemma_fold_conflict(start, own, targets, known, n, i, j, targets.len() as int);
    assert(targets.take(targets.len() as int) =~= targets);
}

/// The message of a star export conflict, naming both modules by their
/// relative paths.
pub fn conflict_message(table: &ModuleTable, c: &StarExportConflict) -> (r: String)
    requires
        c.first < table.modules@.len(),
        c.second < table.modules@.len(),
    ensures
        r@ == "Ambiguous star export: \""@ + c.name@ + "\" is provided by both module "@
            + table.modules@[c.first as int].relative_path@ + " and module "@
            + table.modules@[c.second as int].relative_path@ + " via `export *`"@,
{
    let mut r = String::new();
    push_str(&mut r, "Ambiguous star export: \"");
    push_str(&mut r, c.name.as_str());
    push_str(&mut r, "\" is provided by both module ");
    push_str(&mut r, table.modules[c.first].relative_path.as_str());
    push_str(&mut r, " and module ");
    push_str(&mut r, table.modules[c.second].relative_path.as_str());
    push_str(&mut r, " via `export *`");
    r
}

/// The help text of a star export conflict.
pub fn conflict_help(c: &StarExportConflict) -> (r: String)
    ensures
        r@ == "Add an explicit `export { "@ + c.name@ + " } from \"...\"` to resolve the ambiguity"@,
{
    let mut r = String::new();
    push_str(&mut r, "Add an explicit `export { ");
    push_str(&mut r, c.name.as_str());
    push_str(&mut r, " } from \"...\"` to resolve the ambiguity");
    r
}

} // verus!
