//! What the scan derives from a module's statement summaries: its
//! export/import information, the specifiers it depends on, and the
//! reference directives of the bundle.

use vstd::prelude::*;

use crate::model::{
    DefaultExportKind, ExportEntry, ExportSource, ImportBinding, ImportBindingKind, ModuleExportImportInfo,
    StarReexport, StatementKind, StatementSummary,
};
use crate::rename::str_views;
use crate::text::{str_eq, string_clone};

verus! {

/// `ExportSource` as the contracts see it.
pub enum SourceView {
    LocalDeclaration,
    LocalReexport,
    SourceReexport(Seq<char>, Seq<char>),
    Default,
}

/// `ImportBindingKind` as the contracts see it.
pub enum BindingKindView {
    Named(Seq<char>),
    Default,
    Namespace,
}

pub open spec fn source_view(s: ExportSource) -> SourceView {
    match s {
        ExportSource::LocalDeclaration => SourceView::LocalDeclaration,
        ExportSource::LocalReexport => SourceView::LocalReexport,
        ExportSource::SourceReexport { specifier, imported_name } => SourceView::SourceReexport(specifier@, imported_name@),
        ExportSource::Default => SourceView::Default,
    }
}

pub open spec fn binding_kind_view(k: ImportBindingKind) -> BindingKindView {
    match k {
        ImportBindingKind::Named(n) => BindingKindView::Named(n@),
        ImportBindingKind::Default => BindingKindView::Default,
        ImportBindingKind::Namespace => BindingKindView::Namespace,
    }
}

/// The named exports as keyed views: exported name, local name, source.
pub open spec fn export_views(s: Seq<(String, ExportEntry)>) -> Seq<(Seq<char>, (Seq<char>, SourceView))> {
    s.map_values(|e: (String, ExportEntry)| (e.0@, (e.1.local_name@, source_view(e.1.source))))
}

/// The named imports as keyed views: local name, source specifier, kind.
pub open spec fn import_views(s: Seq<(String, ImportBinding)>) -> Seq<(Seq<char>, (Seq<char>, BindingKindView))> {
    s.map_values(|e: (String, ImportBinding)| (e.0@, (e.1.source_specifier@, binding_kind_view(e.1.kind))))
}

/// The star re-exports as views: specifier and alias.
pub open spec fn star_views(s: Seq<StarReexport>) -> Seq<(Seq<char>, Option<Seq<char>>)> {
    s.map_values(|r: StarReexport| (r.specifier@, match r.alias { Some(a) => Some(a@), None => None }))
}

/// A keyed list with `k` set to `v`: the entry keyed `k` takes the value
/// (and keeps its place), or the pair is added at the end.
pub open spec fn put<V>(s: Seq<(Seq<char>, V)>, k: Seq<char>, v: V) -> Seq<(Seq<char>, V)>
    decreases s.len(),
{
    if s.len() == 0 {
        seq![(k, v)]
    } else if s[0].0 == k {
        s.update(0, (k, v))
    } else {
        seq![s[0]] + put(s.drop_first(), k, v)
    }
}

/// Sets every pair of `ps`, in order.
pub open spec fn put_all<V>(s: Seq<(Seq<char>, V)>, ps: Seq<(Seq<char>, V)>) -> Seq<(Seq<char>, V)>
    decreases ps.len(),
{
    if ps.len() == 0 {
        s
    } else {
        put(put_all(s, ps.drop_last()), ps.last().0, ps.last().1)
    }
}

/// The local name `export default` exports, if it names one.
pub open spec fn default_local(k: DefaultExportKind) -> Option<Seq<char>> {
    match k {
        DefaultExportKind::Function(Some(n), _) => Some(n@),
        DefaultExportKind::Class(Some(n), _) => Some(n@),
        DefaultExportKind::Interface(n, _) => Some(n@),
        DefaultExportKind::Identifier(n) => Some(n@),
        _ => None,
    }
}

/// The named exports one statement sets, in order.
pub open spec fn statement_exports(st: StatementSummary) -> Seq<(Seq<char>, (Seq<char>, SourceView))> {
    if st.kind == StatementKind::ExportNamed {
        if st.has_declaration {
            str_views(st.declared_names@).map_values(|n: Seq<char>| (n, (n, SourceView::LocalDeclaration)))
        } else {
            match st.source {
                Some(src) => st.specifiers@.map_values(
                    |sp: crate::model::ExportSpecifierSummary| (sp.exported@, (sp.exported@, SourceView::SourceReexport(src@, sp.local@))),
                ),
                None => st.specifiers@.map_values(
                    |sp: crate::model::ExportSpecifierSummary| (sp.exported@, (sp.local@, SourceView::LocalReexport)),
                ),
            }
        }
    } else if st.kind == StatementKind::ExportDefault {
        match default_local(st.default_kind) {
            Some(n) => seq![("default"@, (n, SourceView::Default))],
            None => Seq::empty(),
        }
    } else {
        Seq::empty()
    }
}

/// The names `export <declaration>` statements declare, in order.
pub open spec fn statement_declared_exports(st: StatementSummary) -> Seq<Seq<char>> {
    if st.kind == StatementKind::ExportNamed && st.has_declaration {
        str_views(st.declared_names@)
    } else {
        Seq::empty()
    }
}

/// The star re-export a statement adds, if any.
pub open spec fn statement_stars(st: StatementSummary) -> Seq<(Seq<char>, Option<Seq<char>>)> {
    if st.kind == StatementKind::ExportAll && st.source is Some {
        seq![(st.source->0@, match st.export_all_alias { Some(a) => Some(a@), None => None })]
    } else {
        Seq::empty()
    }
}

/// The import bindings a statement sets, in order.
pub open spec fn statement_imports(st: StatementSummary) -> Seq<(Seq<char>, (Seq<char>, BindingKindView))> {
    if st.kind == StatementKind::Import && st.source is Some && st.import_specifiers is Some {
        st.import_specifiers->0@.map_values(
            |s: crate::model::ImportSpecSummary| (s.local@, (st.source->0@, binding_kind_view(s.kind))),
        )
    } else {
        Seq::empty()
    }
}

/// The concatenation of what `f` gives for every statement, in order.
pub open spec fn flat<T>(sts: Seq<StatementSummary>, f: spec_fn(StatementSummary) -> Seq<T>) -> Seq<T>
    decreases sts.len(),
{
    if sts.len() == 0 {
        Seq::empty()
    } else {
        flat(sts.drop_last(), f) + f(sts.last())
    }
}

/// The export/import information of a module with statements `sts`: exports
/// and imports keyed by name (a later statement's entry replacing an earlier
/// one's under the same name), star re-exports and declared export names in
/// source order.
pub open spec fn info_spec(sts: Seq<StatementSummary>) -> (
    Seq<(Seq<char>, (Seq<char>, SourceView))>,
    Seq<(Seq<char>, Option<Seq<char>>)>,
    Seq<(Seq<char>, (Seq<char>, BindingKindView))>,
    Seq<Seq<char>>,
) {
    (
        put_all(Seq::empty(), flat(sts, |st: StatementSummary| statement_exports(st))),
        flat(sts, |st: StatementSummary| statement_stars(st)),
        put_all(Seq::empty(), flat(sts, |st: StatementSummary| statement_imports(st))),
        flat(sts, |st: StatementSummary| statement_declared_exports(st)),
    )
}

/// The view of an export/import information record.
pub open spec fn info_view(i: ModuleExportImportInfo) -> (
    Seq<(Seq<char>, (Seq<char>, SourceView))>,
    Seq<(Seq<char>, Option<Seq<char>>)>,
    Seq<(Seq<char>, (Seq<char>, BindingKindView))>,
    Seq<Seq<char>>,
) {
    (
        export_views(i.named_exports@),
        star_views(i.star_reexports@),
        import_views(i.named_imports@),
        str_views(i.declared_export_names@),
    )
}

proof fn lemma_put_found<V>(s: Seq<(Seq<char>, V)>, k: Seq<char>, v: V, i: int)
    requires
        0 <= i < s.len(),
        s[i].0 == k,
        forall|j: int| 0 <= j < i ==> s[j].0 != k,
    ensures
        put(s, k, v) == s.update(i, (k, v)),
    decreases s.len(),
{
    if i > 0 {
        lemma_put_found(s.drop_first(), k, v, i - 1);
        assert(put(s, k, v) =~= s.update(i, (k, v)));
    }
}

proof fn lemma_put_absent<V>(s: Seq<(Seq<char>, V)>, k: Seq<char>, v: V)
    requires
        forall|j: int| 0 <= j < s.len() ==> s[j].0 != k,
    ensures
        put(s, k, v) == s.push((k, v)),
    decreases s.len(),
{
    if s.len() > 0 {
        lemma_put_absent(s.drop_first(), k, v);
        assert(put(s, k, v) =~= s.push((k, v)));
    }
}

/// The first index of the keyed list whose key is `k`, if any.
fn find_key<V>(s: &Vec<(String, V)>, k: &str) -> (r: Option<usize>)
    ensures
        match r {
            Some(i) => i < s@.len() && s@[i as int].0@ == k@ && forall|j: int| 0 <= j < i ==> (#[trigger] s@[j]).0@ != k@,
            None => forall|j: int| 0 <= j < s@.len() ==> (#[trigger] s@[j]).0@ != k@,
        },
{
    let mut i: usize = 0;
    while i < s.len()
        invariant
            0 <= i <= s@.len(),
            forall|j: int| 0 <= j < i ==> (#[trigger] s@[j]).0@ != k@,
        decreases s@.len() - i,
    {
        if str_eq(s[i].0.as_str(), k) {
            return Some(i);
        }
        i += 1;
    }
    None
}

/// Sets the export keyed `k`.
fn put_export(s: &mut Vec<(String, ExportEntry)>, k: String, e: ExportEntry)
    ensures
        export_views(final(s)@) == put(export_views(old(s)@), k@, (e.local_name@, source_view(e.source))),
{
    let ghost v = export_views(s@);
    let ghost kv = k@;
    let ghost ev = (e.local_name@, source_view(e.source));
    match find_key(s, k.as_str()) {
        Some(i) => {
            proof {
                assert forall|j: int| 0 <= j < i implies v[j].0 != kv by {
                    assert(v[j].0 == s@[j].0@);
                }
                lemma_put_found(v, kv, ev, i as int);
            }
            s.set(i, (k, e));
            assert(export_views(s@) =~= v.update(i as int, (kv, ev)));
        },
        None => {
            proof {
                assert forall|j: int| 0 <= j < v.len() implies v[j].0 != kv by {
                    assert(v[j].0 == s@[j].0@);
                }
                lemma_put_absent(v, kv, ev);
            }
            s.push((k, e));
            assert(export_views(s@) =~= v.push((kv, ev)));
        },
    }
}

/// Sets the import keyed `k`.
fn put_import(s: &mut Vec<(String, ImportBinding)>, k: String, b: ImportBinding)
    ensures
        import_views(final(s)@) == put(import_views(old(s)@), k@, (b.source_specifier@, binding_kind_view(b.kind))),
{
    let ghost v = import_views(s@);
    let ghost kv = k@;
    let ghost bv = (b.source_specifier@, binding_kind_view(b.kind));
    match find_key(s, k.as_str()) {
        Some(i) => {
            proof {
                assert forall|j: int| 0 <= j < i implies v[j].0 != kv by {
                    assert(v[j].0 == s@[j].0@);
                }
                lemma_put_found(v, kv, bv, i as int);
            }
            s.set(i, (k, b));
            assert(import_views(s@) =~= v.update(i as int, (kv, bv)));
        },
        None => {
            proof {
                assert forall|j: int| 0 <= j < v.len() implies v[j].0 != kv by {
                    assert(v[j].0 == s@[j].0@);
                }
                lemma_put_absent(v, kv, bv);
            }
            s.push((k, b));
            assert(import_views(s@) =~= v.push((kv, bv)));
        },
    }
}

proof fn lemma_put_all_push<V>(s: Seq<(Seq<char>, V)>, ps: Seq<(Seq<char>, V)>, k: Seq<char>, v: V)
    ensures
        put_all(s, ps.push((k, v))) == put(put_all(s, ps), k, v),
{
    assert(ps.push((k, v)).drop_last() =~= ps);
}

proof fn lemma_flat_push<T>(sts: Seq<StatementSummary>, st: StatementSummary, f: spec_fn(StatementSummary) -> Seq<T>)
    ensures
        flat(sts.push(st), f) == flat(sts, f) + f(st),
{
    assert(sts.push(st).drop_last() =~= sts);
}

proof fn lemma_put_all_concat<V>(s: Seq<(Seq<char>, V)>, a: Seq<(Seq<char>, V)>, b: Seq<(Seq<char>, V)>)
    ensures
        put_all(s, a + b) == put_all(put_all(s, a), b),
    decreases b.len(),
{
    if b.len() == 0 {
        assert(a + b =~= a);
    } else {
        lemma_put_all_concat(s, a, b.drop_last());
        assert((a + b).drop_last() =~= a + b.drop_last());
        assert((a + b).last() == b.last());
    }
}

/// Collects the export/import information of a module from its statements.
pub fn collect_export_import_info(statements: &Vec<StatementSummary>) -> (r: ModuleExportImportInfo)
    ensures
        info_view(r) == info_spec(statements@),
{
    let mut named_exports: Vec<(String, ExportEntry)> = Vec::new();
    let mut star_reexports: Vec<StarReexport> = Vec::new();
    let mut named_imports: Vec<(String, ImportBinding)> = Vec::new();
    let mut declared_export_names: Vec<String> = Vec::new();
    let ghost sts = statements@;
    let mut i: usize = 0;
    assert(export_views(named_exports@) =~= Seq::<(Seq<char>, (Seq<char>, SourceView))>::empty());
    assert(import_views(named_imports@) =~= Seq::<(Seq<char>, (Seq<char>, BindingKindView))>::empty());
    assert(star_views(star_reexports@) =~= Seq::<(Seq<char>, Option<Seq<char>>)>::empty());
    assert(str_views(declared_export_names@) =~= Seq::<Seq<char>>::empty());
    while i < statements.len()
        invariant
            0 <= i <= sts.len(),
            sts == statements@,
            export_views(named_exports@) == put_all(Seq::empty(), flat(sts.take(i as int), |st: StatementSummary| statement_exports(st))),
            star_views(star_reexports@) == flat(sts.take(i as int), |st: StatementSummary| statement_stars(st)),
            import_views(named_imports@) == put_all(Seq::empty(), flat(sts.take(i as int), |st: StatementSummary| statement_imports(st))),
            str_views(declared_export_names@) == flat(sts.take(i as int), |st: StatementSummary| statement_declared_exports(st)),
        decreases sts.len() - i,
    {
        let st = &statements[i];
        let ghost e0 = named_exports@;
        let ghost s0 = star_reexports@;
        let ghost m0 = named_imports@;
        let ghost d0 = declared_export_names@;
        proof {
            assert(sts.take(i + 1) =~= sts.take(i as int).push(sts[i as int]));
            lemma_flat_push(sts.take(i as int), sts[i as int], |st: StatementSummary| statement_exports(st));
            lemma_flat_push(sts.take(i as int), sts[i as int], |st: StatementSummary| statement_stars(st));
            lemma_flat_push(sts.take(i as int), sts[i as int], |st: StatementSummary| statement_imports(st));
            lemma_flat_push(sts.take(i as int), sts[i as int], |st: StatementSummary| statement_declared_exports(st));
            lemma_put_all_concat(
                Seq::empty(),
                flat(sts.take(i as int), |st: StatementSummary| statement_exports(st)),
                statement_exports(*st),
            );
            lemma_put_all_concat(
                Seq::empty(),
                flat(sts.take(i as int), |st: StatementSummary| statement_imports(st)),
                statement_imports(*st),
            );
        }
        add_statement_exports(st, &mut named_exports, &mut declared_export_names);
        add_statement_star(st, &mut star_reexports);
        add_statement_imports(st, &mut named_imports);
        i += 1;
    }
    assert(sts.take(i as int) =~= sts);
    ModuleExportImportInfo { named_exports, star_reexports, named_imports, declared_export_names }
}

fn add_statement_exports(st: &StatementSummary, named_exports: &mut Vec<(String, ExportEntry)>, declared: &mut Vec<String>)
    ensures
        export_views(final(named_exports)@) == put_all(export_views(old(named_exports)@), statement_exports(*st)),
        str_views(final(declared)@) == str_views(old(declared)@) + statement_declared_exports(*st),
{
    let ghost e0 = export_views(named_exports@);
    let ghost d0 = str_views(declared@);
    if st.kind == StatementKind::ExportNamed {
        if st.has_declaration {
            let ghost ns = str_views(st.declared_names@);
            let ghost evs = ns.map_values(|n: Seq<char>| (n, (n, SourceView::LocalDeclaration)));
            let mut j: usize = 0;
            while j < st.declared_names.len()
                invariant
                    0 <= j <= ns.len(),
                    ns == str_views(st.declared_names@),
                    evs == ns.map_values(|n: Seq<char>| (n, (n, SourceView::LocalDeclaration))),
                    export_views(named_exports@) == put_all(e0, evs.take(j as int)),
                    str_views(declared@) == d0 + ns.take(j as int),
                decreases ns.len() - j,
            {
                let name = &st.declared_names[j];
                let ghost dv = str_views(declared@);
                declared.push(string_clone(name.as_str()));
                proof {
                    assert(str_views(declared@) =~= dv.push(name@));
                    assert(ns.take(j + 1) =~= ns.take(j as int).push(ns[j as int]));
                    assert(evs.take(j + 1) =~= evs.take(j as int).push(evs[j as int]));
                    lemma_put_all_push(e0, evs.take(j as int), name@, (name@, SourceView::LocalDeclaration));
                }
                put_export(named_exports, string_clone(name.as_str()), ExportEntry {
                    local_name: string_clone(name.as_str()),
                    source: ExportSource::LocalDeclaration,
                });
                j += 1;
            }
            assert(ns.take(j as int) =~= ns);
            assert(evs.take(j as int) =~= evs);
        } else {
            let ghost specs = st.specifiers@;
            let ghost evs = statement_exports(*st);
            assert(d0 + statement_declared_exports(*st) =~= d0);
            let mut j: usize = 0;
            while j < st.specifiers.len()
                invariant
                    0 <= j <= specs.len(),
                    specs == st.specifiers@,
                    st.kind == StatementKind::ExportNamed,
                    !st.has_declaration,
                    evs == statement_exports(*st),
                    evs.len() == specs.len(),
                    export_views(named_exports@) == put_all(e0, evs.take(j as int)),
                    str_views(declared@) == d0,
                decreases specs.len() - j,
            {
                let sp = &st.specifiers[j];
                proof {
                    assert(evs.take(j + 1) =~= evs.take(j as int).push(evs[j as int]));
                }
                match &st.source {
                    Some(src) => {
                        proof { lemma_put_all_push(e0, evs.take(j as int), sp.exported@, (sp.exported@, SourceView::SourceReexport(src@, sp.local@))); }
                        put_export(named_exports, string_clone(sp.exported.as_str()), ExportEntry {
                            local_name: string_clone(sp.exported.as_str()),
                            source: ExportSource::SourceReexport {
                                specifier: string_clone(src.as_str()),
                                imported_name: string_clone(sp.local.as_str()),
                            },
                        });
                    },
                    None => {
                        proof { lemma_put_all_push(e0, evs.take(j as int), sp.exported@, (sp.local@, SourceView::LocalReexport)); }
                        put_export(named_exports, string_clone(sp.exported.as_str()), ExportEntry {
                            local_name: string_clone(sp.local.as_str()),
                            source: ExportSource::LocalReexport,
                        });
                    },
                }
                j += 1;
            }
            assert(evs.take(j as int) =~= evs);
        }
    } else if st.kind == StatementKind::ExportDefault {
        assert(d0 + statement_declared_exports(*st) =~= d0);
        let local: Option<&String> = match &st.default_kind {
            DefaultExportKind::Function(Some(n), _) => Some(n),
            DefaultExportKind::Class(Some(n), _) => Some(n),
            DefaultExportKind::Interface(n, _) => Some(n),
            DefaultExportKind::Identifier(n) => Some(n),
            _ => None,
        };
        match local {
            Some(n) => {
                let key = "default";
                proof {
                    reveal_strlit("default");
                    lemma_put_all_push(e0, Seq::empty(), key@, (n@, SourceView::Default));
                    assert(seq![(key@, (n@, SourceView::Default))] =~= Seq::<(Seq<char>, (Seq<char>, SourceView))>::empty().push((key@, (n@, SourceView::Default))));
                }
                put_export(named_exports, string_clone(key), ExportEntry { local_name: string_clone(n.as_str()), source: ExportSource::Default });
            },
            None => {},
        }
    } else {
        assert(d0 + statement_declared_exports(*st) =~= d0);
    }
}

fn add_statement_star(st: &StatementSummary, stars: &mut Vec<StarReexport>)
    ensures
        star_views(final(stars)@) == star_views(old(stars)@) + statement_stars(*st),
{
    let ghost s0 = star_views(stars@);
    if st.kind == StatementKind::ExportAll {
        if let Some(src) = &st.source {
            let alias = match &st.export_all_alias {
                Some(a) => Some(string_clone(a.as_str())),
                None => None,
            };
            stars.push(StarReexport { specifier: string_clone(src.as_str()), alias });
            assert(star_views(stars@) =~= s0 + statement_stars(*st));
            return;
        }
    }
    assert(star_views(stars@) =~= s0 + statement_stars(*st));
}

fn clone_binding_kind(k: &ImportBindingKind) -> (r: ImportBindingKind)
    ensures
        binding_kind_view(r) == binding_kind_view(*k),
{
    match k {
        ImportBindingKind::Named(n) => ImportBindingKind::Named(string_clone(n.as_str())),
        ImportBindingKind::Default => ImportBindingKind::Default,
        ImportBindingKind::Namespace => ImportBindingKind::Namespace,
    }
}

fn add_statement_imports(st: &StatementSummary, imports: &mut Vec<(String, ImportBinding)>)
    ensures
        import_views(final(imports)@) == put_all(import_views(old(imports)@), statement_imports(*st)),
{
    let ghost m0 = import_views(imports@);
    if st.kind == StatementKind::Import {
        if let Some(src) = &st.source {
            if let Some(specs) = &st.import_specifiers {
                let ghost evs = statement_imports(*st);
                let mut j: usize = 0;
                while j < specs.len()
                    invariant
                        0 <= j <= specs@.len(),
                        st.kind == StatementKind::Import,
                        st.source == Some(*src),
                        st.import_specifiers == Some(*specs),
                        evs == statement_imports(*st),
                        evs.len() == specs@.len(),
                        import_views(imports@) == put_all(m0, evs.take(j as int)),
                    decreases specs@.len() - j,
                {
                    let sp = &specs[j];
                    proof {
                        assert(evs.take(j + 1) =~= evs.take(j as int).push(evs[j as int]));
                        lemma_put_all_push(m0, evs.take(j as int), sp.local@, (src@, binding_kind_view(sp.kind)));
                    }
                    put_import(imports, string_clone(sp.local.as_str()), ImportBinding {
                        source_specifier: string_clone(src.as_str()),
                        kind: clone_binding_kind(&sp.kind),
                    });
                    j += 1;
                }
                assert(evs.take(j as int) =~= evs);
                return;
            }
        }
    }
    assert(statement_imports(*st) =~= Seq::<(Seq<char>, (Seq<char>, BindingKindView))>::empty());
}


/// `s` with `x` added at the end unless it holds it already.
pub open spec fn push_unique(s: Seq<Seq<char>>, x: Seq<char>) -> Seq<Seq<char>> {
    if s.contains(x) { s } else { s.push(x) }
}

/// Adds every element of `xs`, in order, unless already held.
pub open spec fn push_all_unique(s: Seq<Seq<char>>, xs: Seq<Seq<char>>) -> Seq<Seq<char>>
    decreases xs.len(),
{
    if xs.len() == 0 {
        s
    } else {
        push_unique(push_all_unique(s, xs.drop_last()), xs.last())
    }
}

/// The specifiers a statement depends on right away: those of imports with
/// bindings, of `export .. from`, `export * from` and `import x = require(..)`.
pub open spec fn statement_eager(st: StatementSummary) -> Seq<Seq<char>> {
    match st.source {
        Some(src) => {
            if st.kind == StatementKind::Import {
                match st.import_specifiers {
                    Some(v) => if v@.len() > 0 { seq![src@] } else { Seq::empty() },
                    None => Seq::empty(),
                }
            } else if (st.kind == StatementKind::ExportNamed && !st.has_declaration) || st.kind == StatementKind::ExportAll
                || st.kind == StatementKind::ImportEquals {
                seq![src@]
            } else {
                Seq::empty()
            }
        },
        None => Seq::empty(),
    }
}

/// The specifier of an import without bindings (`import "./x"`).
pub open spec fn statement_side_effect(st: StatementSummary) -> Seq<Seq<char>> {
    match st.source {
        Some(src) => {
            if st.kind == StatementKind::Import && match st.import_specifiers {
                Some(v) => v@.len() == 0,
                None => true,
            } {
                seq![src@]
            } else {
                Seq::empty()
            }
        },
        None => Seq::empty(),
    }
}

/// The specifiers of the `import("..")` types of a statement.
pub open spec fn statement_inline(st: StatementSummary) -> Seq<Seq<char>> {
    str_views(st.inline_import_sources@)
}

/// A specifier that does not start with `.`.
pub open spec fn is_bare(x: Seq<char>) -> bool {
    !(x.len() > 0 && x[0] == '.')
}

/// The bare specifiers among `xs`, in order.
pub open spec fn bare_of(xs: Seq<Seq<char>>) -> Seq<Seq<char>>
    decreases xs.len(),
{
    if xs.len() == 0 {
        Seq::empty()
    } else if is_bare(xs.last()) {
        bare_of(xs.drop_last()).push(xs.last())
    } else {
        bare_of(xs.drop_last())
    }
}

/// The specifiers a module depends on.
pub struct DependencyHints {
    /// Specifiers to resolve and follow, without duplicates: those of
    /// imports with bindings and re-exports in statement order, then those
    /// of `import("..")` types.
    pub eager: Vec<String>,
    /// Specifiers of imports without bindings, without duplicates.
    pub side_effect: Vec<String>,
    /// The bare specifiers among both, without duplicates.
    pub external: Vec<String>,
}

/// The dependency hints of statements `sts`.
pub open spec fn hints_spec(sts: Seq<StatementSummary>) -> (Seq<Seq<char>>, Seq<Seq<char>>, Seq<Seq<char>>) {
    let eager = push_all_unique(
        push_all_unique(Seq::empty(), flat(sts, |st: StatementSummary| statement_eager(st))),
        flat(sts, |st: StatementSummary| statement_inline(st)),
    );
    let side = push_all_unique(Seq::empty(), flat(sts, |st: StatementSummary| statement_side_effect(st)));
    (eager, side, push_all_unique(Seq::empty(), bare_of(eager + side)))
}

proof fn lemma_push_all_unique_concat(s: Seq<Seq<char>>, a: Seq<Seq<char>>, b: Seq<Seq<char>>)
    ensures
        push_all_unique(s, a + b) == push_all_unique(push_all_unique(s, a), b),
    decreases b.len(),
{
    if b.len() == 0 {
        assert(a + b =~= a);
    } else {
        lemma_push_all_unique_concat(s, a, b.drop_last());
        assert((a + b).drop_last() =~= a + b.drop_last());
        assert((a + b).last() == b.last());
    }
}

proof fn lemma_push_all_unique_one(s: Seq<Seq<char>>, x: Seq<char>)
    ensures
        push_all_unique(s, seq![x]) == push_unique(s, x),
{
    assert(seq![x].drop_last() =~= Seq::<Seq<char>>::empty());
    assert(seq![x].last() == x);
    assert(push_all_unique(s, Seq::<Seq<char>>::empty()) == s);
}

proof fn lemma_bare_step(t: Seq<Seq<char>>, x: Seq<char>)
    ensures
        push_all_unique(Seq::empty(), bare_of(t.push(x))) == if is_bare(x) {
            push_unique(push_all_unique(Seq::empty(), bare_of(t)), x)
        } else {
            push_all_unique(Seq::empty(), bare_of(t))
        },
{
    assert(t.push(x).drop_last() =~= t);
    assert(t.push(x).last() == x);
    if is_bare(x) {
        assert(bare_of(t).push(x).drop_last() =~= bare_of(t));
    }
}

/// Adds every string of `xs` not held yet, in order.
fn push_strs_unique(out: &mut Vec<String>, xs: &Vec<String>)
    ensures
        str_views(final(out)@) == push_all_unique(str_views(old(out)@), str_views(xs@)),
{
    let ghost o0 = str_views(out@);
    let ghost xv = str_views(xs@);
    let mut i: usize = 0;
    while i < xs.len()
        invariant
            0 <= i <= xv.len(),
            xv == str_views(xs@),
            str_views(out@) == push_all_unique(o0, xv.take(i as int)),
        decreases xv.len() - i,
    {
        assert(xv.take(i + 1).drop_last() =~= xv.take(i as int));
        let ghost before = str_views(out@);
        if !crate::rename::contains_name(out, xs[i].as_str()) {
            out.push(string_clone(xs[i].as_str()));
            assert(str_views(out@) =~= before.push(xs@[i as int]@));
        }
        i += 1;
    }
    assert(xv.take(i as int) =~= xv);
}

/// Adds `x` unless held.
fn push_str_unique(out: &mut Vec<String>, x: &str)
    ensures
        str_views(final(out)@) == push_unique(str_views(old(out)@), x@),
{
    let ghost before = str_views(out@);
    if !crate::rename::contains_name(out, x) {
        out.push(string_clone(x));
        assert(str_views(out@) =~= before.push(x@));
    }
}

/// Collects the specifiers a module's statements depend on.
pub fn collect_module_dependency_hints(statements: &Vec<StatementSummary>) -> (r: DependencyHints)
    ensures
        (str_views(r.eager@), str_views(r.side_effect@), str_views(r.external@)) == hints_spec(statements@),
{
    let ghost sts = statements@;
    let mut eager: Vec<String> = Vec::new();
    let mut side_effect: Vec<String> = Vec::new();
    let mut i: usize = 0;
    assert(str_views(eager@) =~= Seq::<Seq<char>>::empty());
    while i < statements.len()
        invariant
            0 <= i <= sts.len(),
            sts == statements@,
            str_views(eager@) == push_all_unique(Seq::empty(), flat(sts.take(i as int), |st: StatementSummary| statement_eager(st))),
            str_views(side_effect@) == push_all_unique(Seq::empty(), flat(sts.take(i as int), |st: StatementSummary| statement_side_effect(st))),
        decreases sts.len() - i,
    {
        let st = &statements[i];
        proof {
            assert(sts.take(i + 1) =~= sts.take(i as int).push(sts[i as int]));
            lemma_flat_push(sts.take(i as int), sts[i as int], |st: StatementSummary| statement_eager(st));
            lemma_flat_push(sts.take(i as int), sts[i as int], |st: StatementSummary| statement_side_effect(st));
            lemma_push_all_unique_concat(Seq::empty(), flat(sts.take(i as int), |st: StatementSummary| statement_eager(st)), statement_eager(*st));
            lemma_push_all_unique_concat(Seq::empty(), flat(sts.take(i as int), |st: StatementSummary| statement_side_effect(st)), statement_side_effect(*st));
        }
        let ghost e0 = str_views(eager@);
        let ghost s0 = str_views(side_effect@);
        if let Some(src) = &st.source {
            if st.kind == StatementKind::Import {
                let has_bindings = match &st.import_specifiers {
                    Some(v) => v.len() > 0,
                    None => false,
                };
                if has_bindings {
                    push_str_unique(&mut eager, src.as_str());
                    proof { lemma_push_all_unique_one(e0, src@); }
                    assert(push_all_unique(s0, Seq::empty()) == s0);
                } else {
                    push_str_unique(&mut side_effect, src.as_str());
                    proof { lemma_push_all_unique_one(s0, src@); }
                    assert(push_all_unique(e0, Seq::empty()) == e0);
                }
            } else if (st.kind == StatementKind::ExportNamed && !st.has_declaration) || st.kind == StatementKind::ExportAll
                || st.kind == StatementKind::ImportEquals {
                push_str_unique(&mut eager, src.as_str());
                proof { lemma_push_all_unique_one(e0, src@); }
                assert(push_all_unique(s0, Seq::empty()) == s0);
            } else {
                assert(push_all_unique(e0, Seq::empty()) == e0);
                assert(push_all_unique(s0, Seq::empty()) == s0);
            }
        } else {
            assert(push_all_unique(e0, Seq::empty()) == e0);
            assert(push_all_unique(s0, Seq::empty()) == s0);
        }
        i += 1;
    }
    assert(sts.take(i as int) =~= sts);
    let ghost direct = str_views(eager@);
    let mut k: usize = 0;
    while k < statements.len()
        invariant
            0 <= k <= sts.len(),
            sts == statements@,
            str_views(eager@) == push_all_unique(direct, flat(sts.take(k as int), |st: StatementSummary| statement_inline(st))),
        decreases sts.len() - k,
    {
        proof {
            assert(sts.take(k + 1) =~= sts.take(k as int).push(sts[k as int]));
            lemma_flat_push(sts.take(k as int), sts[k as int], |st: StatementSummary| statement_inline(st));
            lemma_push_all_unique_concat(direct, flat(sts.take(k as int), |st: StatementSummary| statement_inline(st)), statement_inline(sts[k as int]));
        }
        push_strs_unique(&mut eager, &statements[k].inline_import_sources);
        k += 1;
    }
    assert(sts.take(k as int) =~= sts);
    let ghost ev = str_views(eager@);
    let ghost sv = str_views(side_effect@);
    let ghost both = ev + sv;
    let mut external: Vec<String> = Vec::new();
    assert(str_views(external@) =~= Seq::<Seq<char>>::empty());
    assert(bare_of(Seq::<Seq<char>>::empty()) =~= Seq::<Seq<char>>::empty());
    let mut n: usize = 0;
    while n < eager.len()
        invariant
            0 <= n <= ev.len(),
            ev == str_views(eager@),
            both == ev + sv,
            str_views(external@) == push_all_unique(Seq::empty(), bare_of(both.take(n as int))),
        decreases ev.len() - n,
    {
        let x = &eager[n];
        proof {
            assert(both.take(n + 1) =~= both.take(n as int).push(x@));
            lemma_bare_step(both.take(n as int), x@);
        }
        let chars = crate::text::str_chars(x.as_str());
        if !(chars.len() > 0 && chars[0] == '.') {
            push_str_unique(&mut external, x.as_str());
        }
        n += 1;
    }
    let mut m: usize = 0;
    while m < side_effect.len()
        invariant
            0 <= m <= sv.len(),
            sv == str_views(side_effect@),
            both == ev + sv,
            str_views(external@) == push_all_unique(Seq::empty(), bare_of(both.take(ev.len() + m))),
        decreases sv.len() - m,
    {
        let x = &side_effect[m];
        proof {
            assert(both.take(ev.len() + m + 1) =~= both.take(ev.len() + m).push(x@));
            lemma_bare_step(both.take(ev.len() + m), x@);
        }
        let chars = crate::text::str_chars(x.as_str());
        if !(chars.len() > 0 && chars[0] == '.') {
            push_str_unique(&mut external, x.as_str());
        }
        m += 1;
    }
    assert(both.take(ev.len() + m) =~= both);
    DependencyHints { eager, side_effect, external }
}

/// The distinct reference directives of all modules, in module order.
pub open spec fn unique_directives_spec(t: Seq<crate::model::Module>) -> Seq<Seq<char>>
    decreases t.len(),
{
    if t.len() == 0 {
        Seq::empty()
    } else {
        push_all_unique(unique_directives_spec(t.drop_last()), str_views(t.last().reference_directives@))
    }
}

/// Collects the distinct reference directives of all modules, in module order.
pub fn collect_unique_directives(table: &crate::model::ModuleTable) -> (r: Vec<String>)
    ensures
        str_views(r@) == unique_directives_spec(table.modules@),
{
    let mut out: Vec<String> = Vec::new();
    let mut i: usize = 0;
    assert(str_views(out@) =~= Seq::<Seq<char>>::empty());
    while i < table.modules.len()
        invariant
            0 <= i <= table.modules@.len(),
            str_views(out@) == unique_directives_spec(table.modules@.take(i as int)),
        decreases table.modules@.len() - i,
    {
        assert(table.modules@.take(i + 1).drop_last() =~= table.modules@.take(i as int));
        push_strs_unique(&mut out, &table.modules[i].reference_directives);
        i += 1;
    }
    assert(table.modules@.take(i as int) =~= table.modules@);
    out
}


/// `s` without its leading white space.
pub open spec fn trim_start(s: Seq<char>) -> Seq<char>
    decreases s.len(),
{
    if s.len() > 0 && crate::text::is_white_space(s[0]) {
        trim_start(s.drop_first())
    } else {
        s
    }
}

/// `s` without its trailing white space.
pub open spec fn trim_end(s: Seq<char>) -> Seq<char>
    decreases s.len(),
{
    if s.len() > 0 && crate::text::is_white_space(s.last()) {
        trim_end(s.drop_last())
    } else {
        s
    }
}

/// `s` without leading and trailing white space (`str::trim`).
pub open spec fn trim(s: Seq<char>) -> Seq<char> {
    trim_end(trim_start(s))
}

/// Whether `s` holds a character that is not white space.
pub open spec fn has_non_whitespace(s: Seq<char>) -> bool {
    exists|i: int| 0 <= i < s.len() && !crate::text::is_white_space(#[trigger] s[i])
}

/// The leading reference directives of a file, given its comments in order,
/// each with the text between it and the comment before (or the start of the
/// file): up to the first comment after code, the trimmed comments that
/// start with `/// <reference `, skipping blank comments, stopping at any
/// other comment.
pub open spec fn leading_directives_spec(ps: Seq<(Seq<char>, Seq<char>)>) -> Seq<Seq<char>>
    decreases ps.len(),
{
    if ps.len() == 0 {
        Seq::empty()
    } else if has_non_whitespace(ps[0].0) {
        Seq::empty()
    } else {
        let t = trim(ps[0].1);
        if crate::text::has_prefix(t, "/// <reference "@) {
            seq![t] + leading_directives_spec(ps.drop_first())
        } else if t.len() > 0 {
            Seq::empty()
        } else {
            leading_directives_spec(ps.drop_first())
        }
    }
}

proof fn lemma_trim_start_skip(s: Seq<char>, a: int)
    requires
        0 <= a <= s.len(),
        forall|j: int| 0 <= j < a ==> crate::text::is_white_space(#[trigger] s[j]),
    ensures
        trim_start(s) == trim_start(s.skip(a)),
    decreases a,
{
    if a > 0 {
        assert(s.skip(1) =~= s.drop_first());
        assert forall|j: int| 0 <= j < a - 1 implies crate::text::is_white_space(#[trigger] s.drop_first()[j]) by {
            assert(s.drop_first()[j] == s[j + 1]);
        }
        lemma_trim_start_skip(s.drop_first(), a - 1);
        assert(s.drop_first().skip(a - 1) =~= s.skip(a));
    } else {
        assert(s.skip(0) =~= s);
    }
}

proof fn lemma_trim_end_take(s: Seq<char>, b: int)
    requires
        0 <= b <= s.len(),
        forall|j: int| b <= j < s.len() ==> crate::text::is_white_space(#[trigger] s[j]),
    ensures
        trim_end(s) == trim_end(s.take(b)),
    decreases s.len() - b,
{
    if b < s.len() {
        assert(s.drop_last().take(b) =~= s.take(b));
        assert forall|j: int| b <= j < s.drop_last().len() implies crate::text::is_white_space(#[trigger] s.drop_last()[j]) by {
            assert(s.drop_last()[j] == s[j]);
        }
        lemma_trim_end_take(s.drop_last(), b);
    } else {
        assert(s.take(b) =~= s);
    }
}

/// `str::trim`.
pub fn trim_str(text: &str) -> (r: String)
    ensures
        r@ == trim(text@),
{
    let chars = crate::text::str_chars(text);
    let mut a: usize = 0;
    while a < chars.len() && crate::text::char_is_white_space(chars[a])
        invariant
            0 <= a <= chars@.len(),
            chars@ == text@,
            forall|j: int| 0 <= j < a ==> crate::text::is_white_space(#[trigger] chars@[j]),
        decreases chars@.len() - a,
    {
        a += 1;
    }
    proof { lemma_trim_start_skip(chars@, a as int); }
    let ghost rest = chars@.skip(a as int);
    assert(trim_start(rest) == rest);
    let mut b: usize = chars.len();
    while b > a && crate::text::char_is_white_space(chars[b - 1])
        invariant
            a <= b <= chars@.len(),
            chars@ == text@,
            forall|j: int| b <= j < chars@.len() ==> crate::text::is_white_space(#[trigger] chars@[j]),
        decreases b - a,
    {
        b -= 1;
    }
    let ghost kept = chars@.subrange(a as int, b as int);
    proof {
        assert forall|j: int| (b - a) <= j < rest.len() implies crate::text::is_white_space(#[trigger] rest[j]) by {
            assert(rest[j] == chars@[j + a]);
        }
        lemma_trim_end_take(rest, (b - a) as int);
        assert(rest.take((b - a) as int) =~= kept);
        if b > a {
            assert(kept.last() == chars@[b - 1]);
        }
    }
    let mut out: Vec<char> = Vec::new();
    let mut i: usize = a;
    while i < b
        invariant
            a <= i <= b,
            b <= chars@.len(),
            out@ == chars@.subrange(a as int, i as int),
        decreases b - i,
    {
        out.push(chars[i]);
        assert(out@ =~= chars@.subrange(a as int, i + 1));
        i += 1;
    }
    crate::text::string_from_chars(&out)
}

/// Whether `s` starts with `pre`.
fn str_starts_with(s: &str, pre: &str) -> (r: bool)
    ensures
        r == crate::text::has_prefix(s@, pre@),
{
    let a = crate::text::str_chars(s);
    let b = crate::text::str_chars(pre);
    crate::text::chars_starts_with(&a, &b)
}

/// The leading `/// <reference ... />` directives of a file, from its
/// comments in order, each paired with the text before it (from the end of
/// the previous comment, or from the start of the file).
pub fn leading_reference_directives(pieces: &Vec<(String, String)>) -> (r: Vec<String>)
    ensures
        str_views(r@) == leading_directives_spec(pieces@.map_values(|p: (String, String)| (p.0@, p.1@))),
{
    let ghost ps = pieces@.map_values(|p: (String, String)| (p.0@, p.1@));
    let mut out: Vec<String> = Vec::new();
    let mut i: usize = 0;
    let prefix = "/// <reference ";
    proof { reveal_strlit("/// <reference "); }
    assert(ps.skip(0) =~= ps);
    assert(str_views(out@) =~= Seq::<Seq<char>>::empty());
    while i < pieces.len()
        invariant_except_break
            0 <= i <= ps.len(),
            ps == pieces@.map_values(|p: (String, String)| (p.0@, p.1@)),
            prefix@ == "/// <reference "@,
            leading_directives_spec(ps) == str_views(out@) + leading_directives_spec(ps.skip(i as int)),
        ensures
            leading_directives_spec(ps) == str_views(out@),
        decreases ps.len() - i,
    {
        let ghost rest = ps.skip(i as int);
        assert(rest[0] == (pieces@[i as int].0@, pieces@[i as int].1@));
        assert(rest.drop_first() =~= ps.skip(i + 1));
        if crate::text::contains_non_whitespace(pieces[i].0.as_str()) {
            assert(leading_directives_spec(rest) =~= Seq::<Seq<char>>::empty());
            assert(str_views(out@) + Seq::<Seq<char>>::empty() =~= str_views(out@));
            break;
        }
        let t = trim_str(pieces[i].1.as_str());
        if str_starts_with(t.as_str(), prefix) {
            let ghost before = str_views(out@);
            let ghost tv = t@;
            out.push(t);
            assert(str_views(out@) =~= before.push(tv));
            assert(before + (seq![tv] + leading_directives_spec(ps.skip(i + 1))) =~= before.push(tv) + leading_directives_spec(ps.skip(i + 1)));
        } else if crate::text::str_chars(t.as_str()).len() > 0 {
            assert(str_views(out@) + Seq::<Seq<char>>::empty() =~= str_views(out@));
            break;
        }
        i += 1;
    }
    proof {
        if i == pieces.len() {
            assert(ps.skip(i as int) =~= Seq::<(Seq<char>, Seq<char>)>::empty());
            assert(str_views(out@) + Seq::<Seq<char>>::empty() =~= str_views(out@));
        }
    }
    out
}


/// The namespace aliases one statement of module `m` introduces:
/// `import * as X from "./internal"` maps the symbol of `X` to the module.
pub open spec fn statement_aliases(m: crate::model::Module, st: StatementSummary) -> Seq<(crate::model::SymbolId, crate::model::ModuleIdx)> {
    if st.kind == StatementKind::Import && st.source is Some && st.import_specifiers is Some
        && crate::model::resolve_internal(m, st.source->0@) is Some {
        let target = crate::model::resolve_internal(m, st.source->0@)->0;
        namespace_symbols(st.import_specifiers->0@).map_values(|sym: crate::model::SymbolId| (sym, target))
    } else {
        Seq::empty()
    }
}

/// The symbols of the namespace specifiers among `v`, in order.
pub open spec fn namespace_symbols(v: Seq<crate::model::ImportSpecSummary>) -> Seq<crate::model::SymbolId>
    decreases v.len(),
{
    if v.len() == 0 {
        Seq::empty()
    } else {
        let rest = namespace_symbols(v.drop_last());
        match (v.last().kind, v.last().symbol) {
            (ImportBindingKind::Namespace, Some(sym)) => rest.push(sym),
            _ => rest,
        }
    }
}

/// The namespace aliases of module `m`, in statement order.
pub open spec fn module_aliases(m: crate::model::Module) -> Seq<(crate::model::SymbolId, crate::model::ModuleIdx)> {
    flat(m.statements@, |st: StatementSummary| statement_aliases(m, st))
}

/// Collects, for every module, the namespace aliases its imports introduce.
pub fn collect_module_aliases(table: &crate::model::ModuleTable) -> (r: Vec<(crate::model::ModuleIdx, Vec<(crate::model::SymbolId, crate::model::ModuleIdx)>)>)
    ensures
        r@.len() == table.modules@.len(),
        forall|i: int| 0 <= i < r@.len() ==> (#[trigger] r@[i]).0 == i && r@[i].1@ == module_aliases(table.modules@[i]),
{
    let mut out: Vec<(crate::model::ModuleIdx, Vec<(crate::model::SymbolId, crate::model::ModuleIdx)>)> = Vec::new();
    let mut i: usize = 0;
    while i < table.modules.len()
        invariant
            0 <= i <= table.modules@.len(),
            out@.len() == i,
            forall|k: int| 0 <= k < i ==> (#[trigger] out@[k]).0 == k && out@[k].1@ == module_aliases(table.modules@[k]),
        decreases table.modules@.len() - i,
    {
        let m = &table.modules[i];
        let ghost sts = m.statements@;
        let mut list: Vec<(crate::model::SymbolId, crate::model::ModuleIdx)> = Vec::new();
        let mut j: usize = 0;
        while j < m.statements.len()
            invariant
                0 <= j <= sts.len(),
                sts == m.statements@,
                list@ == flat(sts.take(j as int), |st: StatementSummary| statement_aliases(*m, st)),
            decreases sts.len() - j,
        {
            let st = &m.statements[j];
            proof {
                assert(sts.take(j + 1) =~= sts.take(j as int).push(sts[j as int]));
                lemma_flat_push(sts.take(j as int), sts[j as int], |st: StatementSummary| statement_aliases(*m, st));
            }
            let ghost l0 = list@;
            let mut target: Option<crate::model::ModuleIdx> = None;
            if st.kind == StatementKind::Import {
                if let Some(src) = &st.source {
                    if st.import_specifiers.is_some() {
                        target = m.resolve_internal_specifier(src.as_str());
                    }
                }
            }
            match target {
                Some(t) => {
                    let specs = st.import_specifiers.as_ref().unwrap();
                    let ghost sv = specs@;
                    let mut k: usize = 0;
                    while k < specs.len()
                        invariant
                            0 <= k <= sv.len(),
                            sv == specs@,
                            list@ == l0 + namespace_symbols(sv.take(k as int)).map_values(|sym: crate::model::SymbolId| (sym, t)),
                        decreases sv.len() - k,
                    {
                        assert(sv.take(k + 1).drop_last() =~= sv.take(k as int));
                        assert(sv.take(k + 1).last() == sv[k as int]);
                        match (&specs[k].kind, specs[k].symbol) {
                            (ImportBindingKind::Namespace, Some(sym)) => {
                                list.push((sym, t));
                                assert(list@ =~= l0 + namespace_symbols(sv.take(k + 1)).map_values(|sym: crate::model::SymbolId| (sym, t)));
                            },
                            _ => {
                                assert(namespace_symbols(sv.take(k + 1)) == namespace_symbols(sv.take(k as int)));
                            },
                        }
                        k += 1;
                    }
                    assert(sv.take(k as int) =~= sv);
                },
                None => {
                    assert(statement_aliases(*m, *st) =~= Seq::<(crate::model::SymbolId, crate::model::ModuleIdx)>::empty());
                    assert(list@ =~= l0 + statement_aliases(*m, *st));
                },
            }
            j += 1;
        }
        assert(sts.take(j as int) =~= sts);
        out.push((i, list));
        i += 1;
    }
    out
}

} // verus!
