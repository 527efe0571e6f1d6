//! Adjustments of a module's external imports after its statements were
//! transformed: namespace imports whose members were accessed become named
//! imports, and imports nothing refers to any more are pruned.

use vstd::prelude::*;

use crate::emit::ExportView;
use crate::link_types::{
    ExportedName, ExternalImport, ImportSpecifier, ImportSpecifierKind, ImportView, KindView, SpecifierView,
    import_views, specifier_views,
};
use crate::model::SymbolId;
use crate::rename::{contains_name, str_views};
use crate::text::{is_ascii_digit, is_generated_external_namespace_helper, str_eq, string_clone};

verus! {

/// `sp` is the namespace specifier named `local`.
pub open spec fn is_ns_named(sp: SpecifierView, local: Seq<char>) -> bool {
    sp.kind is Namespace && sp.local == local
}

/// Whether `specs` holds the namespace specifier named `local`.
pub open spec fn has_ns(specs: Seq<SpecifierView>, local: Seq<char>) -> bool {
    exists|i: int| 0 <= i < specs.len() && is_ns_named(#[trigger] specs[i], local)
}

/// `specs` without the namespace specifiers named `local`.
pub open spec fn without_ns(specs: Seq<SpecifierView>, local: Seq<char>) -> Seq<SpecifierView>
    decreases specs.len(),
{
    if specs.len() == 0 {
        Seq::empty()
    } else {
        let prev = without_ns(specs.drop_last(), local);
        if is_ns_named(specs.last(), local) {
            prev
        } else {
            prev.push(specs.last())
        }
    }
}

/// The first index at or after `i` of an import from `src` that holds the
/// namespace specifier `local`.
pub open spec fn ns_import_slot(imps: Seq<ImportView>, src: Seq<char>, local: Seq<char>, i: int) -> int
    decreases imps.len() - i,
{
    if i < 0 || i >= imps.len() {
        imps.len() as int
    } else if imps[i].source == src && has_ns(imps[i].specifiers, local) {
        i
    } else {
        ns_import_slot(imps, src, local, i + 1)
    }
}

/// `imp` with other specifiers.
pub open spec fn with_specifiers(imp: ImportView, specs: Seq<SpecifierView>) -> ImportView {
    ImportView {
        source: imp.source,
        specifiers: specs,
        is_type_only: imp.is_type_only,
        side_effect_only: imp.side_effect_only,
        from_reexport: imp.from_reexport,
    }
}

/// `imps` with the namespace specifier `local` taken out of the import at
/// `p`, which goes when nothing is left of it.
pub open spec fn drop_ns_at(imps: Seq<ImportView>, p: int, local: Seq<char>) -> Seq<ImportView> {
    let specs = without_ns(imps[p].specifiers, local);
    if specs.len() == 0 {
        imps.remove(p)
    } else {
        imps.update(p, with_specifiers(imps[p], specs))
    }
}

/// A generated namespace helper name: `_` first, and some ASCII digit.
pub open spec fn generated_helper(n: Seq<char>) -> bool {
    n.len() > 0 && n[0] == '_' && exists|i: int| 0 <= i < n.len() && is_ascii_digit(#[trigger] n[i])
}

/// The imports after dropping, for each external namespace `(source,
/// local)` in turn, the generated helper `local` that neither the module's
/// code nor its exports use any more.
pub open spec fn drop_helpers(
    imps: Seq<ImportView>,
    helpers: Seq<(Seq<char>, Seq<char>)>,
    referenced: Seq<Seq<char>>,
    exported: Seq<Seq<char>>,
) -> Seq<ImportView>
    decreases helpers.len(),
{
    if helpers.len() == 0 {
        imps
    } else {
        let prev = drop_helpers(imps, helpers.drop_last(), referenced, exported);
        let (src, local) = helpers.last();
        if referenced.contains(local) || exported.contains(local) || !generated_helper(local) {
            prev
        } else {
            let p = ns_import_slot(prev, src, local, 0);
            if p < prev.len() {
                drop_ns_at(prev, p, local)
            } else {
                prev
            }
        }
    }
}

/// Namespace specifiers stay; the others when their name is referenced,
/// exported or re-exported.
pub open spec fn keep_used(
    specs: Seq<SpecifierView>,
    referenced: Seq<Seq<char>>,
    exported: Seq<Seq<char>>,
    reexported: Seq<Seq<char>>,
) -> Seq<SpecifierView>
    decreases specs.len(),
{
    if specs.len() == 0 {
        Seq::empty()
    } else {
        let prev = keep_used(specs.drop_last(), referenced, exported, reexported);
        let sp = specs.last();
        if sp.kind is Namespace || referenced.contains(sp.local) || exported.contains(sp.local)
            || reexported.contains(sp.local) {
            prev.push(sp)
        } else {
            prev
        }
    }
}

/// The module's own imports, pruned: an import kept for a re-export stays
/// as it is; of the others only the used specifiers stay, and an import
/// left with none goes unless it is a bare `import "x"`.
pub open spec fn prune_tail(
    imps: Seq<ImportView>,
    referenced: Seq<Seq<char>>,
    exported: Seq<Seq<char>>,
    reexported: Seq<Seq<char>>,
) -> Seq<ImportView>
    decreases imps.len(),
{
    if imps.len() == 0 {
        Seq::empty()
    } else {
        let prev = prune_tail(imps.drop_last(), referenced, exported, reexported);
        let imp = imps.last();
        let pruned = if imp.from_reexport {
            imp
        } else {
            with_specifiers(imp, keep_used(imp.specifiers, referenced, exported, reexported))
        };
        if pruned.side_effect_only || pruned.specifiers.len() > 0 {
            prev.push(pruned)
        } else {
            prev
        }
    }
}

/// The local names of exports.
pub open spec fn export_locals(es: Seq<ExportView>) -> Seq<Seq<char>> {
    es.map_values(|e: ExportView| e.0)
}

/// The `(source, local)` pairs of external namespace imports.
pub open spec fn helper_views(v: Seq<(SymbolId, (String, String))>) -> Seq<(Seq<char>, Seq<char>)> {
    v.map_values(|e: (SymbolId, (String, String))| (e.1.0@, e.1.1@))
}

/// Whether `specs` holds the namespace specifier named `local`.
fn specs_have_ns(specs: &Vec<ImportSpecifier>, local: &str) -> (r: bool)
    ensures
        r == has_ns(specifier_views(specs@), local@),
{
    let ghost sv = specifier_views(specs@);
    let mut i: usize = 0;
    while i < specs.len()
        invariant
            0 <= i <= specs@.len(),
            sv == specifier_views(specs@),
            forall|j: int| 0 <= j < i ==> !is_ns_named(#[trigger] sv[j], local@),
        decreases specs@.len() - i,
    {
        assert(sv[i as int] == specs@[i as int]@);
        let is_ns = match &specs[i].kind {
            ImportSpecifierKind::Namespace => true,
            _ => false,
        };
        if is_ns && str_eq(specs[i].local.as_str(), local) {
            assert(is_ns_named(sv[i as int], local@));
            return true;
        }
        i += 1;
    }
    false
}

/// The index of the first import from `src` that holds the namespace
/// specifier `local`.
fn find_ns_import(imports: &Vec<ExternalImport>, src: &str, local: &str) -> (r: usize)
    ensures
        r == ns_import_slot(import_views(imports@), src@, local@, 0),
{
    let ghost iv = import_views(imports@);
    let mut i: usize = 0;
    while i < imports.len()
        invariant
            0 <= i <= iv.len(),
            iv == import_views(imports@),
            ns_import_slot(iv, src@, local@, 0) == ns_import_slot(iv, src@, local@, i as int),
        decreases iv.len() - i,
    {
        assert(iv[i as int] == imports@[i as int]@);
        if str_eq(imports[i].source.as_str(), src) && specs_have_ns(&imports[i].specifiers, local) {
            return i;
        }
        i += 1;
    }
    i
}

/// `specs` without the namespace specifiers named `local`.
fn specs_without_ns(specs: Vec<ImportSpecifier>, local: &str) -> (r: Vec<ImportSpecifier>)
    ensures
        specifier_views(r@) == without_ns(specifier_views(specs@), local@),
{
    let ghost sv = specifier_views(specs@);
    let mut out: Vec<ImportSpecifier> = Vec::new();
    let mut rest = specs;
    let ghost orig = rest@;
    let n = rest.len();
    assert(orig.len() == n);
    let mut i: usize = 0;
    while rest.len() > 0
        invariant
            0 <= i <= sv.len(),
            sv == specifier_views(orig),
            rest@ == orig.skip(i as int),
            rest@.len() + i == orig.len(),
            orig.len() <= usize::MAX,
            specifier_views(out@) == without_ns(sv.take(i as int), local@),
        decreases rest@.len(),
    {
        let sp = rest.remove(0);
        proof {
            assert(orig.skip(i as int).drop_first() =~= orig.skip(i + 1));
            let tk = sv.take(i + 1);
            assert(tk.drop_last() =~= sv.take(i as int));
            assert(tk.last() == sp@);
        }
        let is_ns = match &sp.kind {
            ImportSpecifierKind::Namespace => true,
            _ => false,
        };
        if !(is_ns && str_eq(sp.local.as_str(), local)) {
            let ghost ob = out@;
            let ghost spv = sp@;
            out.push(sp);
            assert(specifier_views(out@) =~= specifier_views(ob).push(spv));
        }
        i += 1;
    }
    assert(sv.take(i as int) =~= sv);
    out
}


/// Whether some export of `exports` has the local name `n`.
fn exports_have_local(exports: &[ExportedName], n: &str) -> (r: bool)
    ensures
        r == export_locals(crate::emit::export_views(exports@)).contains(n@),
{
    let ghost ls = export_locals(crate::emit::export_views(exports@));
    let mut i: usize = 0;
    while i < exports.len()
        invariant
            0 <= i <= exports@.len(),
            ls == export_locals(crate::emit::export_views(exports@)),
            forall|j: int| 0 <= j < i ==> ls[j] != n@,
        decreases exports@.len() - i,
    {
        if str_eq(exports[i].local.as_str(), n) {
            assert(ls[i as int] == n@);
            return true;
        }
        i += 1;
    }
    false
}

/// Drops the generated external namespace helpers (`import * as _x1 from
/// "y"`) that neither the module's code (`referenced`) nor its exports use
/// any more, because their only uses were inside tree-shaken declarations;
/// an import left without specifiers goes. Namespace imports the author
/// wrote stay.
pub fn drop_unused_namespace_helpers(
    imports: &mut Vec<ExternalImport>,
    referenced: &Vec<String>,
    module_exports: &[ExportedName],
    external_ns_info: &Vec<(SymbolId, (String, String))>,
)
    ensures
        import_views(final(imports)@) == drop_helpers(
            import_views(old(imports)@),
            helper_views(external_ns_info@),
            str_views(referenced@),
            export_locals(crate::emit::export_views(module_exports@)),
        ),
{
    let ghost i0 = import_views(imports@);
    let ghost hs = helper_views(external_ns_info@);
    let ghost rs = str_views(referenced@);
    let ghost es = export_locals(crate::emit::export_views(module_exports@));
    let mut h: usize = 0;
    while h < external_ns_info.len()
        invariant
            0 <= h <= hs.len(),
            hs == helper_views(external_ns_info@),
            rs == str_views(referenced@),
            es == export_locals(crate::emit::export_views(module_exports@)),
            import_views(imports@) == drop_helpers(i0, hs.take(h as int), rs, es),
        decreases hs.len() - h,
    {
        let specifier = external_ns_info[h].1.0.as_str();
        let local = external_ns_info[h].1.1.as_str();
        proof {
            let tk = hs.take(h + 1);
            assert(tk.drop_last() =~= hs.take(h as int));
            assert(tk.last() == (specifier@, local@));
        }
        let skip = contains_name(referenced, local) || exports_have_local(module_exports, local)
            || !is_generated_external_namespace_helper(local);
        if !skip {
            let p = find_ns_import(imports, specifier, local);
            if p < imports.len() {
                let ghost before = imports@;
                let ExternalImport { source, specifiers, is_type_only, side_effect_only, from_reexport } = imports.remove(p);
                let ghost sv = specifier_views(specifiers@);
                assert(sv == import_views(before)[p as int].specifiers);
                let kept = specs_without_ns(specifiers, local);
                if kept.len() > 0 {
                    let imp = ExternalImport { source, specifiers: kept, is_type_only, side_effect_only, from_reexport };
                    let ghost iv = imp@;
                    imports.insert(p, imp);
                    assert(import_views(imports@) =~= import_views(before).update(
                        p as int,
                        with_specifiers(import_views(before)[p as int], without_ns(sv, local@)),
                    ));
                } else {
                    assert(import_views(imports@) =~= import_views(before).remove(p as int));
                }
            }
        }
        h += 1;
    }
    assert(hs.take(h as int) =~= hs);
}

/// Keeps the namespace specifiers of `specs`, and the others whose name is
/// referenced, exported or re-exported.
fn keep_used_specifiers(
    specs: &Vec<ImportSpecifier>,
    referenced: &Vec<String>,
    module_exports: &[ExportedName],
    reexported: &Vec<String>,
) -> (r: Vec<ImportSpecifier>)
    ensures
        specifier_views(r@) == keep_used(
            specifier_views(specs@),
            str_views(referenced@),
            export_locals(crate::emit::export_views(module_exports@)),
            str_views(reexported@),
        ),
{
    let ghost sv = specifier_views(specs@);
    let mut out: Vec<ImportSpecifier> = Vec::new();
    let mut i: usize = 0;
    while i < specs.len()
        invariant
            0 <= i <= sv.len(),
            sv == specifier_views(specs@),
            specifier_views(out@) == keep_used(
                sv.take(i as int),
                str_views(referenced@),
                export_locals(crate::emit::export_views(module_exports@)),
                str_views(reexported@),
            ),
        decreases sv.len() - i,
    {
        let sp = &specs[i];
        proof {
            let tk = sv.take(i + 1);
            assert(tk.drop_last() =~= sv.take(i as int));
            assert(tk.last() == sp@);
        }
        let keep = match &sp.kind {
            ImportSpecifierKind::Namespace => true,
            _ => contains_name(referenced, sp.local.as_str()) || exports_have_local(module_exports, sp.local.as_str())
                || contains_name(reexported, sp.local.as_str()),
        };
        if keep {
            let kind = match &sp.kind {
                ImportSpecifierKind::Default => ImportSpecifierKind::Default,
                ImportSpecifierKind::Namespace => ImportSpecifierKind::Namespace,
                ImportSpecifierKind::Named(n) => ImportSpecifierKind::Named(string_clone(n.as_str())),
            };
            let c = ImportSpecifier { local: string_clone(sp.local.as_str()), kind };
            assert(c@ == sp@);
            let ghost ob = out@;
            out.push(c);
            assert(specifier_views(out@) =~= specifier_views(ob).push(sp@));
        }
        i += 1;
    }
    assert(sv.take(i as int) =~= sv);
    out
}

/// Prunes the module's own imports (those from `imports_start` on): an
/// import kept for a re-export stays as it is; of the others only the
/// namespace specifiers and the specifiers whose name is referenced,
/// exported or re-exported stay, and an import left with none goes unless
/// it is a bare `import "x"`.
pub fn prune_unused_import_specifiers(
    imports: &mut Vec<ExternalImport>,
    imports_start: usize,
    referenced: &Vec<String>,
    module_exports: &[ExportedName],
    reexported_import_names: &Vec<String>,
)
    requires
        imports_start <= old(imports)@.len(),
    ensures
        import_views(final(imports)@) == import_views(old(imports)@).take(imports_start as int) + prune_tail(
            import_views(old(imports)@).skip(imports_start as int),
            str_views(referenced@),
            export_locals(crate::emit::export_views(module_exports@)),
            str_views(reexported_import_names@),
        ),
{
    let ghost iv0 = import_views(imports@);
    let ghost rs = str_views(referenced@);
    let ghost es = export_locals(crate::emit::export_views(module_exports@));
    let ghost xs = str_views(reexported_import_names@);
    let tail = imports.split_off(imports_start);
    let ghost tv = import_views(tail@);
    assert(tv =~= iv0.skip(imports_start as int));
    assert(import_views(imports@) =~= iv0.take(imports_start as int));
    let mut i: usize = 0;
    while i < tail.len()
        invariant
            0 <= i <= tv.len(),
            tv == import_views(tail@),
            rs == str_views(referenced@),
            es == export_locals(crate::emit::export_views(module_exports@)),
            xs == str_views(reexported_import_names@),
            import_views(imports@) == iv0.take(imports_start as int) + prune_tail(tv.take(i as int), rs, es, xs),
        decreases tv.len() - i,
    {
        let imp = &tail[i];
        proof {
            let tk = tv.take(i + 1);
            assert(tk.drop_last() =~= tv.take(i as int));
            assert(tk.last() == imp@);
        }
        let specifiers = if imp.from_reexport {
            let mut c: Vec<ImportSpecifier> = Vec::new();
            let mut k: usize = 0;
            while k < imp.specifiers.len()
                invariant
                    0 <= k <= imp.specifiers@.len(),
                    specifier_views(c@) == specifier_views(imp.specifiers@).take(k as int),
                decreases imp.specifiers@.len() - k,
            {
                let sp = &imp.specifiers[k];
                let kind = match &sp.kind {
                    ImportSpecifierKind::Default => ImportSpecifierKind::Default,
                    ImportSpecifierKind::Namespace => ImportSpecifierKind::Namespace,
                    ImportSpecifierKind::Named(n) => ImportSpecifierKind::Named(string_clone(n.as_str())),
                };
                let ghost ob = c@;
                c.push(ImportSpecifier { local: string_clone(sp.local.as_str()), kind });
                assert(specifier_views(c@) =~= specifier_views(ob).push(sp@));
                assert(specifier_views(imp.specifiers@).take(k + 1) =~= specifier_views(imp.specifiers@).take(k as int).push(sp@));
                k += 1;
            }
            assert(specifier_views(imp.specifiers@).take(k as int) =~= specifier_views(imp.specifiers@));
            c
        } else {
            keep_used_specifiers(&imp.specifiers, referenced, module_exports, reexported_import_names)
        };
        if imp.side_effect_only || specifiers.len() > 0 {
            let pruned = ExternalImport {
                source: string_clone(imp.source.as_str()),
                specifiers,
                is_type_only: imp.is_type_only,
                side_effect_only: imp.side_effect_only,
                from_reexport: imp.from_reexport,
            };
            let ghost ob = imports@;
            let ghost pv = pruned@;
            imports.push(pruned);
            assert(import_views(imports@) =~= import_views(ob).push(pv));
        }
        i += 1;
    }
    assert(tv.take(i as int) =~= tv);
}

/// Prunes the imports after a module's statements were transformed: first
/// the unused generated namespace helpers (among all imports), then the
/// module's own imports (from `imports_start` on).
pub fn prune_unused_imports(
    imports: &mut Vec<ExternalImport>,
    imports_start: usize,
    referenced: &Vec<String>,
    module_exports: &[ExportedName],
    reexported_import_names: &Vec<String>,
    external_ns_info: &Vec<(SymbolId, (String, String))>,
)
    requires
        imports_start <= drop_helpers(
            import_views(old(imports)@),
            helper_views(external_ns_info@),
            str_views(referenced@),
            export_locals(crate::emit::export_views(module_exports@)),
        ).len(),
    ensures
        ({
            let d = drop_helpers(
                import_views(old(imports)@),
                helper_views(external_ns_info@),
                str_views(referenced@),
                export_locals(crate::emit::export_views(module_exports@)),
            );
            import_views(final(imports)@) == d.take(imports_start as int) + prune_tail(
                d.skip(imports_start as int),
                str_views(referenced@),
                export_locals(crate::emit::export_views(module_exports@)),
                str_views(reexported_import_names@),
            )
        }),
{
    drop_unused_namespace_helpers(imports, referenced, module_exports, external_ns_info);
    prune_unused_import_specifiers(imports, imports_start, referenced, module_exports, reexported_import_names);
}


/// The local name of the first external namespace import of `src`.
pub open spec fn ns_local_of(info: Seq<(Seq<char>, Seq<char>)>, src: Seq<char>) -> Option<Seq<char>>
    decreases info.len(),
{
    if info.len() == 0 {
        None
    } else if info[0].0 == src {
        Some(info[0].1)
    } else {
        ns_local_of(info.drop_first(), src)
    }
}

/// Whether `specs` holds a named import of `n`.
pub open spec fn has_named(specs: Seq<SpecifierView>, n: Seq<char>) -> bool {
    exists|i: int| 0 <= i < specs.len() && (#[trigger] specs[i]).kind == KindView::Named(n)
}

/// Whether `specs` holds a named import.
pub open spec fn has_any_named(specs: Seq<SpecifierView>) -> bool {
    exists|i: int| 0 <= i < specs.len() && (#[trigger] specs[i]).kind is Named
}

/// The first index at or after `i` of an import from `src` with a named
/// specifier.
pub open spec fn named_import_slot(imps: Seq<ImportView>, src: Seq<char>, i: int) -> int
    decreases imps.len() - i,
{
    if i < 0 || i >= imps.len() {
        imps.len() as int
    } else if imps[i].source == src && has_any_named(imps[i].specifiers) {
        i
    } else {
        named_import_slot(imps, src, i + 1)
    }
}

/// `specs` with a named import of each member it does not import yet.
pub open spec fn add_members(specs: Seq<SpecifierView>, members: Seq<Seq<char>>) -> Seq<SpecifierView>
    decreases members.len(),
{
    if members.len() == 0 {
        specs
    } else {
        let prev = add_members(specs, members.drop_last());
        let m = members.last();
        if has_named(prev, m) {
            prev
        } else {
            prev.push(SpecifierView { local: m, kind: KindView::Named(m) })
        }
    }
}

/// The imports after turning the namespace import of `src` into named
/// imports of `members`: the namespace specifier leaves its import, the
/// members join the first import of `src` with named specifiers (else that
/// same import), and the import goes when nothing is left of it.
pub open spec fn convert_one(
    imps: Seq<ImportView>,
    info: Seq<(Seq<char>, Seq<char>)>,
    src: Seq<char>,
    members: Seq<Seq<char>>,
) -> Seq<ImportView> {
    match ns_local_of(info, src) {
        None => imps,
        Some(l) => {
            let idx = ns_import_slot(imps, src, l, 0);
            if idx >= imps.len() {
                imps
            } else {
                let s1 = imps.update(idx, with_specifiers(imps[idx], without_ns(imps[idx].specifiers, l)));
                let t0 = named_import_slot(s1, src, 0);
                let target = if t0 < s1.len() { t0 } else { idx };
                let s2 = s1.update(target, with_specifiers(s1[target], add_members(s1[target].specifiers, members)));
                if s2[idx].specifiers.len() == 0 {
                    s2.remove(idx)
                } else {
                    s2
                }
            }
        },
    }
}

/// The imports after converting each accessed external namespace in turn.
pub open spec fn convert_all(
    imps: Seq<ImportView>,
    info: Seq<(Seq<char>, Seq<char>)>,
    accessed: Seq<(Seq<char>, Seq<Seq<char>>)>,
) -> Seq<ImportView>
    decreases accessed.len(),
{
    if accessed.len() == 0 {
        imps
    } else {
        let prev = convert_all(imps, info, accessed.drop_last());
        convert_one(prev, info, accessed.last().0, accessed.last().1)
    }
}

/// The `(source, members)` views of accessed external namespaces.
pub open spec fn accessed_views(v: Seq<(String, Vec<String>)>) -> Seq<(Seq<char>, Seq<Seq<char>>)> {
    v.map_values(|e: (String, Vec<String>)| (e.0@, str_views(e.1@)))
}

/// The local name of the first external namespace import of `src`.
fn find_ns_local<'a>(info: &'a Vec<(SymbolId, (String, String))>, src: &str) -> (r: Option<&'a str>)
    ensures
        match r {
            Some(l) => ns_local_of(helper_views(info@), src@) == Some(l@),
            None => ns_local_of(helper_views(info@), src@) is None,
        },
{
    let ghost hv = helper_views(info@);
    let mut i: usize = 0;
    assert(hv.skip(0) =~= hv);
    while i < info.len()
        invariant
            0 <= i <= hv.len(),
            hv == helper_views(info@),
            ns_local_of(hv, src@) == ns_local_of(hv.skip(i as int), src@),
        decreases hv.len() - i,
    {
        assert(hv.skip(i as int).drop_first() =~= hv.skip(i + 1));
        assert(hv.skip(i as int)[0] == (info@[i as int].1.0@, info@[i as int].1.1@));
        if str_eq(info[i].1.0.as_str(), src) {
            return Some(info[i].1.1.as_str());
        }
        i += 1;
    }
    None
}

/// Whether `specs` holds a named specifier.
fn specs_have_named(specs: &Vec<ImportSpecifier>) -> (r: bool)
    ensures
        r == has_any_named(specifier_views(specs@)),
{
    let ghost sv = specifier_views(specs@);
    let mut i: usize = 0;
    while i < specs.len()
        invariant
            0 <= i <= specs@.len(),
            sv == specifier_views(specs@),
            forall|j: int| 0 <= j < i ==> !((#[trigger] sv[j]).kind is Named),
        decreases specs@.len() - i,
    {
        assert(sv[i as int] == specs@[i as int]@);
        if let ImportSpecifierKind::Named(_) = &specs[i].kind {
            return true;
        }
        i += 1;
    }
    false
}

/// The index of the first import from `src` with a named specifier.
fn find_named_import(imports: &Vec<ExternalImport>, src: &str) -> (r: usize)
    ensures
        r == named_import_slot(import_views(imports@), src@, 0),
{
    let ghost iv = import_views(imports@);
    let mut i: usize = 0;
    while i < imports.len()
        invariant
            0 <= i <= iv.len(),
            iv == import_views(imports@),
            named_import_slot(iv, src@, 0) == named_import_slot(iv, src@, i as int),
        decreases iv.len() - i,
    {
        assert(iv[i as int] == imports@[i as int]@);
        if str_eq(imports[i].source.as_str(), src) && specs_have_named(&imports[i].specifiers) {
            return i;
        }
        i += 1;
    }
    i
}

/// Adds a named import of each member `specs` does not import yet.
fn add_member_specifiers(specs: &mut Vec<ImportSpecifier>, members: &Vec<String>)
    ensures
        specifier_views(final(specs)@) == add_members(specifier_views(old(specs)@), str_views(members@)),
{
    let ghost s0 = specifier_views(specs@);
    let ghost mv = str_views(members@);
    let mut i: usize = 0;
    while i < members.len()
        invariant
            0 <= i <= mv.len(),
            mv == str_views(members@),
            specifier_views(specs@) == add_members(s0, mv.take(i as int)),
        decreases mv.len() - i,
    {
        let m = members[i].as_str();
        proof {
            let tk = mv.take(i + 1);
            assert(tk.drop_last() =~= mv.take(i as int));
            assert(tk.last() == m@);
        }
        let ghost sv = specifier_views(specs@);
        let mut found = false;
        let mut k: usize = 0;
        while k < specs.len()
            invariant
                0 <= k <= specs@.len(),
                sv == specifier_views(specs@),
                found == exists|j: int| 0 <= j < k && (#[trigger] sv[j]).kind == KindView::Named(m@),
            decreases specs@.len() - k,
        {
            assert(sv[k as int] == specs@[k as int]@);
            if let ImportSpecifierKind::Named(n) = &specs[k].kind {
                if str_eq(n.as_str(), m) {
                    found = true;
                }
            }
            k += 1;
        }
        if !found {
            let ghost ob = specs@;
            let spec = ImportSpecifier { local: string_clone(m), kind: ImportSpecifierKind::Named(string_clone(m)) };
            let ghost spv = spec@;
            specs.push(spec);
            assert(specifier_views(specs@) =~= specifier_views(ob).push(spv));
        }
        i += 1;
    }
    assert(mv.take(i as int) =~= mv);
}

/// Converts the namespace import of `specifier` into named imports of
/// `members` (see `convert_namespace_member_imports`).
fn convert_one_namespace(
    imports: &mut Vec<ExternalImport>,
    external_ns_info: &Vec<(SymbolId, (String, String))>,
    specifier: &str,
    members: &Vec<String>,
)
    ensures
        import_views(final(imports)@) == convert_one(
            import_views(old(imports)@),
            helper_views(external_ns_info@),
            specifier@,
            str_views(members@),
        ),
{
    let ghost before = import_views(imports@);
    if let Some(ns_local) = find_ns_local(external_ns_info, specifier) {
        let idx = find_ns_import(imports, specifier, ns_local);
        if idx < imports.len() {
            let ExternalImport { source, specifiers, is_type_only, side_effect_only, from_reexport } = imports.remove(idx);
            let kept = specs_without_ns(specifiers, ns_local);
            imports.insert(idx, ExternalImport { source, specifiers: kept, is_type_only, side_effect_only, from_reexport });
            let ghost s1 = import_views(imports@);
            assert(s1 =~= before.update(idx as int, with_specifiers(before[idx as int], without_ns(before[idx as int].specifiers, ns_local@))));
            let t0 = find_named_import(imports, specifier);
            let target = if t0 < imports.len() { t0 } else { idx };
            let ExternalImport { source, specifiers, is_type_only, side_effect_only, from_reexport } = imports.remove(target);
            let mut specs = specifiers;
            add_member_specifiers(&mut specs, members);
            imports.insert(target, ExternalImport { source, specifiers: specs, is_type_only, side_effect_only, from_reexport });
            let ghost s2 = import_views(imports@);
            assert(s2 =~= s1.update(target as int, with_specifiers(s1[target as int], add_members(s1[target as int].specifiers, str_views(members@)))));
            if imports[idx].specifiers.len() == 0 {
                assert(s2[idx as int].specifiers.len() == 0);
                imports.remove(idx);
                assert(import_views(imports@) =~= s2.remove(idx as int));
            }
        }
    }
}

/// Turns external namespace imports into named imports of the members the
/// module's code accessed through them (`accessed`: source and members):
/// the namespace specifier leaves its import, the members join the first
/// import of the same source with named specifiers (else that same import),
/// and an import left without specifiers goes.
pub fn convert_namespace_member_imports(
    imports: &mut Vec<ExternalImport>,
    external_ns_info: &Vec<(SymbolId, (String, String))>,
    accessed: &Vec<(String, Vec<String>)>,
)
    ensures
        import_views(final(imports)@) == convert_all(
            import_views(old(imports)@),
            helper_views(external_ns_info@),
            accessed_views(accessed@),
        ),
{
    let ghost i0 = import_views(imports@);
    let ghost hv = helper_views(external_ns_info@);
    let ghost av = accessed_views(accessed@);
    let mut a: usize = 0;
    while a < accessed.len()
        invariant
            0 <= a <= av.len(),
            av == accessed_views(accessed@),
            hv == helper_views(external_ns_info@),
            import_views(imports@) == convert_all(i0, hv, av.take(a as int)),
        decreases av.len() - a,
    {
        let specifier = accessed[a].0.as_str();
        let members = &accessed[a].1;
        proof {
            let tk = av.take(a + 1);
            assert(tk.drop_last() =~= av.take(a as int));
            assert(tk.last() == (specifier@, str_views(members@)));
        }
        convert_one_namespace(imports, external_ns_info, specifier, members);
        a += 1;
    }
    assert(av.take(a as int) =~= av);
}

} // verus!
