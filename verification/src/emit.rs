//! Import and export statement formatting for the bundled output.

use vstd::prelude::*;

use crate::link_types::{ExportedName, ExternalImport, ImportSpecifier, ImportSpecifierKind};
use crate::link_types::{ImportView, KindView, SpecifierView, import_views, specifier_views};
use crate::text::{push_str, seq_lt, str_eq, str_lt, lemma_seq_lt_total, lemma_seq_lt_trans};

verus! {

/// `(local, exported, is_type_only)` of an exported name.
pub type ExportView = (Seq<char>, Seq<char>, bool);

/// The first index at or after `i` whose exported name equals `e`'s or sorts
/// after it.
pub open spec fn export_slot(acc: Seq<ExportView>, e: ExportView, i: int) -> int
    decreases acc.len() - i,
{
    if i < 0 || i >= acc.len() {
        acc.len() as int
    } else if acc[i].1 == e.1 || seq_lt(e.1, acc[i].1) {
        i
    } else {
        export_slot(acc, e, i + 1)
    }
}

/// Adds `e` to the exports `acc` ordered by exported name, unless an export of
/// that name is already there (the earlier one wins).
pub open spec fn add_export(acc: Seq<ExportView>, e: ExportView) -> Seq<ExportView> {
    let p = export_slot(acc, e, 0);
    if p < acc.len() && acc[p].1 == e.1 {
        acc
    } else {
        acc.insert(p, e)
    }
}

/// The exports of `s` ordered by exported name, one per exported name: the
/// first that `s` holds.
pub open spec fn sorted_exports(s: Seq<ExportView>) -> Seq<ExportView>
    decreases s.len(),
{
    if s.len() == 0 {
        Seq::empty()
    } else {
        add_export(sorted_exports(s.drop_last()), s.last())
    }
}

/// One specifier of the consolidated export statement.
pub open spec fn render_export(e: ExportView) -> Seq<char> {
    (if e.2 { "type "@ } else { Seq::empty() }) + (if e.0 == e.1 {
        e.1
    } else {
        e.0 + " as "@ + e.1
    })
}

/// Law (export specifiers): the specifier of an export is its name when
/// the local and exported names agree, else `local as exported`; a
/// type-only export's specifier is that same text after `type `, renamed or
/// not.
pub proof fn law_render_export(local: Seq<char>, exported: Seq<char>)
    ensures
        render_export((local, exported, false)) == if local == exported {
            exported
        } else {
            local + " as "@ + exported
        },
        render_export((local, exported, true)) == "type "@ + render_export((local, exported, false)),
{
    assert(Seq::<char>::empty() + (if local == exported { exported } else { local + " as "@ + exported }) =~= (
    if local == exported {
        exported
    } else {
        local + " as "@ + exported
    }));
}

/// The specifiers of `s`, separated by `, `.
pub open spec fn join_exports(s: Seq<ExportView>) -> Seq<char>
    decreases s.len(),
{
    if s.len() == 0 {
        Seq::empty()
    } else if s.len() == 1 {
        render_export(s[0])
    } else {
        join_exports(s.drop_last()) + ", "@ + render_export(s.last())
    }
}

/// The consolidated export statement for the exported names `s`.
pub open spec fn export_statement(s: Seq<ExportView>) -> Seq<char> {
    "export { "@ + join_exports(sorted_exports(s)) + " };"@
}

/// Law (a single export): the statement for one exported name is
/// `export { <specifier> };` with that export's specifier.
pub proof fn law_single_export_statement(e: ExportView)
    ensures
        export_statement(seq![e]) == "export { "@ + render_export(e) + " };"@,
{
    assert(seq![e].drop_last() =~= Seq::<ExportView>::empty());
    assert(export_slot(Seq::<ExportView>::empty(), e, 0) == 0);
    assert(Seq::<ExportView>::empty().insert(0, e) =~= seq![e]);
    assert(sorted_exports(Seq::<ExportView>::empty()) == Seq::<ExportView>::empty());
    assert(add_export(Seq::<ExportView>::empty(), e) == seq![e]);
    reveal_with_fuel(sorted_exports, 2);
    assert(sorted_exports(seq![e]) == seq![e]);
    assert(join_exports(seq![e]) == render_export(e));
}

/// The views of a sequence of exported names.
pub open spec fn export_views(s: Seq<ExportedName>) -> Seq<ExportView> {
    s.map_values(|x: ExportedName| x@)
}

/// `acc` is ordered strictly by exported name.
pub open spec fn strictly_sorted(acc: Seq<ExportView>) -> bool {
    forall|i: int, j: int| 0 <= i < j < acc.len() ==> seq_lt(#[trigger] acc[i].1, #[trigger] acc[j].1)
}

proof fn lemma_export_slot(acc: Seq<ExportView>, e: ExportView, i: int)
    requires
        0 <= i <= acc.len(),
    ensures
        i <= export_slot(acc, e, i) <= acc.len(),
        forall|k: int| i <= k < export_slot(acc, e, i) ==> !(#[trigger] acc[k].1 == e.1) && !seq_lt(e.1, acc[k].1),
        export_slot(acc, e, i) < acc.len() ==> (acc[export_slot(acc, e, i)].1 == e.1 || seq_lt(e.1, acc[export_slot(acc, e, i)].1)),
    decreases acc.len() - i,
{
    if i < acc.len() && !(acc[i].1 == e.1 || seq_lt(e.1, acc[i].1)) {
        lemma_export_slot(acc, e, i + 1);
    }
}

/// Adding an export keeps the list strictly ordered.
proof fn lemma_add_export_sorted(acc: Seq<ExportView>, e: ExportView)
    requires
        strictly_sorted(acc),
    ensures
        strictly_sorted(add_export(acc, e)),
{
    let p = export_slot(acc, e, 0);
    lemma_export_slot(acc, e, 0);
    if !(p < acc.len() && acc[p].1 == e.1) {
        let r = acc.insert(p, e);
        assert forall|i: int, j: int| 0 <= i < j < r.len() implies seq_lt(#[trigger] r[i].1, #[trigger] r[j].1) by {
            if j < p {
            } else if i < p && j == p {
                lemma_seq_lt_total(acc[i].1, e.1);
            } else if i < p && j > p {
                assert(r[j] == acc[j - 1]);
            } else if i == p {
                assert(r[j] == acc[j - 1]);
                if j - 1 > p {
                    assert(seq_lt(acc[p].1, acc[j - 1].1));
                    lemma_seq_lt_trans(e.1, acc[p].1, acc[j - 1].1);
                }
            } else {
                assert(r[i] == acc[i - 1] && r[j] == acc[j - 1]);
            }
        }
    }
}

/// Every exported name of `s` has an entry in `sorted_exports(s)`.
proof fn lemma_sorted_exports_cover(s: Seq<ExportView>)
    ensures
        forall|k: int| 0 <= k < s.len() ==> exists|i: int|
            0 <= i < sorted_exports(s).len() && (#[trigger] sorted_exports(s)[i]).1 == (#[trigger] s[k]).1,
    decreases s.len(),
{
    if s.len() > 0 {
        let prev = s.drop_last();
        let acc = sorted_exports(prev);
        let e = s.last();
        lemma_sorted_exports_cover(prev);
        lemma_export_slot(acc, e, 0);
        let p = export_slot(acc, e, 0);
        let r = sorted_exports(s);
        assert(r == add_export(acc, e));
        assert forall|k: int| 0 <= k < s.len() implies exists|i: int|
            0 <= i < r.len() && (#[trigger] r[i]).1 == (#[trigger] s[k]).1 by {
            if k < s.len() - 1 {
                assert(prev[k] == s[k]);
                let i0 = choose|i: int| 0 <= i < acc.len() && (#[trigger] acc[i]).1 == (#[trigger] prev[k]).1;
                if p < acc.len() && acc[p].1 == e.1 {
                    assert(r[i0].1 == s[k].1);
                } else if i0 < p {
                    assert(r[i0] == acc[i0]);
                } else {
                    assert(r[i0 + 1] == acc[i0]);
                }
            } else {
                if p < acc.len() && acc[p].1 == e.1 {
                    assert(r[p].1 == s[k].1);
                } else {
                    assert(r[p] == e);
                }
            }
        }
    }
}

/// `s[k]` is the first entry of `s` with its exported name.
pub open spec fn first_of_name(s: Seq<ExportView>, k: int) -> bool {
    0 <= k < s.len() && forall|m: int| 0 <= m < k ==> (#[trigger] s[m]).1 != s[k].1
}

/// `x` is an entry of `s` that comes before every other entry of its name.
pub open spec fn is_first_entry(s: Seq<ExportView>, x: ExportView) -> bool {
    exists|k: int| #[trigger] first_of_name(s, k) && s[k] == x
}

/// `sorted_exports(s)` is strictly ordered by exported name.
proof fn lemma_sorted_exports_sorted(s: Seq<ExportView>)
    ensures
        strictly_sorted(sorted_exports(s)),
    decreases s.len(),
{
    if s.len() > 0 {
        lemma_sorted_exports_sorted(s.drop_last());
        lemma_add_export_sorted(sorted_exports(s.drop_last()), s.last());
    }
}

/// When `add_export` inserts `e`, no entry of `prev` has `e`'s exported name.
proof fn lemma_inserted_name_is_new(prev: Seq<ExportView>, e: ExportView)
    requires
        ({
            let acc = sorted_exports(prev);
            let p = export_slot(acc, e, 0);
            !(p < acc.len() && acc[p].1 == e.1)
        }),
    ensures
        forall|m: int| 0 <= m < prev.len() ==> (#[trigger] prev[m]).1 != e.1,
{
    let acc = sorted_exports(prev);
    let p = export_slot(acc, e, 0);
    lemma_sorted_exports_cover(prev);
    lemma_sorted_exports_sorted(prev);
    lemma_export_slot(acc, e, 0);
    assert forall|m: int| 0 <= m < prev.len() implies (#[trigger] prev[m]).1 != e.1 by {
        let i1 = choose|i: int| 0 <= i < acc.len() && (#[trigger] acc[i]).1 == (#[trigger] prev[m]).1;
        if prev[m].1 == e.1 {
            if i1 > p {
                assert(seq_lt(acc[p].1, acc[i1].1));
                lemma_seq_lt_trans(e.1, acc[p].1, acc[i1].1);
                lemma_seq_lt_total(e.1, acc[i1].1);
            }
        }
    }
}

/// An entry that is the first of its name in `s.drop_last()` is so in `s`.
proof fn lemma_first_of_name_extends(s: Seq<ExportView>, k: int)
    requires
        s.len() > 0,
        first_of_name(s.drop_last(), k),
    ensures
        first_of_name(s, k),
        s[k] == s.drop_last()[k],
{
    assert forall|m: int| 0 <= m < k implies (#[trigger] s[m]).1 != s[k].1 by {
        assert(s[m] == s.drop_last()[m]);
    }
}

/// Where the entry `i` of `add_export(acc, e)` comes from: `-1` for `e`,
/// else its index in `acc`.
pub open spec fn added_from(acc: Seq<ExportView>, e: ExportView, i: int) -> int {
    let p = export_slot(acc, e, 0);
    if p < acc.len() && acc[p].1 == e.1 {
        i
    } else if i < p {
        i
    } else if i == p {
        -1
    } else {
        i - 1
    }
}

proof fn lemma_added_from(acc: Seq<ExportView>, e: ExportView)
    ensures
        forall|i: int| 0 <= i < add_export(acc, e).len() ==> {
            let j = #[trigger] added_from(acc, e, i);
            &&& j == -1 ==> add_export(acc, e)[i] == e
            &&& j != -1 ==> 0 <= j < acc.len() && add_export(acc, e)[i] == acc[j]
        },
{
    lemma_export_slot(acc, e, 0);
}

/// Every entry of `sorted_exports(s)` is the first entry of `s` with its name.
#[verifier::rlimit(40)]
proof fn lemma_sorted_exports_first(s: Seq<ExportView>)
    ensures
        forall|i: int| 0 <= i < sorted_exports(s).len() ==> is_first_entry(s, #[trigger] sorted_exports(s)[i]),
    decreases s.len(),
{
    if s.len() > 0 {
        let prev = s.drop_last();
        let acc = sorted_exports(prev);
        let e = s.last();
        lemma_sorted_exports_first(prev);
        let p = export_slot(acc, e, 0);
        let found = p < acc.len() && acc[p].1 == e.1;
        let r = sorted_exports(s);
        assert(r == add_export(acc, e));
        lemma_added_from(acc, e);
        if !found {
            lemma_inserted_name_is_new(prev, e);
        }
        assert forall|i: int| 0 <= i < r.len() implies is_first_entry(s, #[trigger] r[i]) by {
            let j = added_from(acc, e, i);
            if j == -1 {
                let k0 = s.len() - 1;
                assert forall|m: int| 0 <= m < k0 implies (#[trigger] s[m]).1 != s[k0].1 by {
                    assert(s[m] == prev[m]);
                }
                assert(first_of_name(s, k0) && s[k0] == r[i]);
            } else {
                assert(is_first_entry(prev, acc[j]));
                let k0 = choose|k: int| #[trigger] first_of_name(prev, k) && prev[k] == acc[j];
                lemma_first_of_name_extends(s, k0);
                assert(first_of_name(s, k0) && s[k0] == r[i]);
            }
        }
    } else {
        assert(sorted_exports(s).len() == 0);
    }
}

/// Law: the consolidated export list is strictly ordered by exported name,
/// holds an entry for each exported name of the input, and that entry is the
/// first one of the input with that name.
pub proof fn law_sorted_exports(s: Seq<ExportView>)
    ensures
        strictly_sorted(sorted_exports(s)),
        forall|k: int| 0 <= k < s.len() ==> exists|i: int|
            0 <= i < sorted_exports(s).len() && (#[trigger] sorted_exports(s)[i]).1 == (#[trigger] s[k]).1,
        forall|i: int| 0 <= i < sorted_exports(s).len() ==> is_first_entry(s, #[trigger] sorted_exports(s)[i]),
{
    lemma_sorted_exports_cover(s);
    lemma_sorted_exports_sorted(s);
    lemma_sorted_exports_first(s);
}

/// Writes the consolidated export statement: `export { A, B as C, type D };`,
/// one specifier per exported name, ordered by exported name; where two
/// entries share an exported name, the first one is kept.
pub fn write_export_statement(exports: &[ExportedName], output: &mut String)
    ensures
        final(output)@ == old(output)@ + export_statement(export_views(exports@)),
{
    let ghost views = export_views(exports@);
    // indices into `exports`, ordered and deduplicated by exported name
    let mut order: Vec<usize> = Vec::new();
    let mut n: usize = 0;
    while n < exports.len()
        invariant
            0 <= n <= exports@.len(),
            views == export_views(exports@),
            forall|i: int| 0 <= i < order@.len() ==> (#[trigger] order@[i]) < exports@.len(),
            order@.map_values(|x: usize| views[x as int]) == sorted_exports(views.take(n as int)),
        decreases exports@.len() - n,
    {
        let e = &exports[n];
        let ghost acc = order@.map_values(|x: usize| views[x as int]);
        let mut p: usize = 0;
        let mut found = false;
        while p < order.len()
            invariant_except_break
                !found,
            invariant
                0 <= p <= order@.len(),
                views == export_views(exports@),
                forall|i: int| 0 <= i < order@.len() ==> (#[trigger] order@[i]) < exports@.len(),
                acc == order@.map_values(|x: usize| views[x as int]),
                views[n as int] == e@,
                n < exports@.len(),
                export_slot(acc, e@, 0) == export_slot(acc, e@, p as int),
        ensures
            0 <= p <= order@.len(),
            export_slot(acc, e@, 0) == export_slot(acc, e@, p as int),
            found ==> p < acc.len() && acc[p as int].1 == e@.1,
            !found ==> p == acc.len() || seq_lt(e@.1, acc[p as int].1),
        decreases order@.len() - p,
        {
            let cur = &exports[order[p]];
            assert(acc[p as int] == cur@);
            if str_eq(cur.exported.as_str(), e.exported.as_str()) {
                found = true;
                break;
            }
            if str_lt(e.exported.as_str(), cur.exported.as_str()) {
                break;
            }
            p += 1;
        }
        proof {
            lemma_export_slot(acc, e@, p as int);
            assert(views.take(n + 1).drop_last() == views.take(n as int));
            assert(views.take(n + 1).last() == e@);
            assert(sorted_exports(views.take(n + 1)) == add_export(acc, e@));
            assert(export_slot(acc, e@, p as int) == p);
            lemma_seq_lt_total(e@.1, e@.1);
        }
        if !found {
            order.insert(p, n);
            assert(order@.map_values(|x: usize| views[x as int]) =~= acc.insert(p as int, e@));
            assert(add_export(acc, e@) == acc.insert(p as int, e@));
        } else {
            assert(add_export(acc, e@) == acc);
        }
        assert(order@.map_values(|x: usize| views[x as int]) == add_export(acc, e@));
        n += 1;
    }
    assert(views.take(n as int) == views);
    let ghost chosen = sorted_exports(views);
    push_str(output, "export { ");
    let ghost start = output@;
    let mut i: usize = 0;
    while i < order.len()
        invariant
            0 <= i <= order@.len(),
            views == export_views(exports@),
            forall|k: int| 0 <= k < order@.len() ==> (#[trigger] order@[k]) < exports@.len(),
            order@.map_values(|x: usize| views[x as int]) == chosen,
            output@ == start + join_exports(chosen.take(i as int)),
        decreases order@.len() - i,
    {
        let exp = &exports[order[i]];
        assert(chosen[i as int] == exp@);
        let ghost before = output@;
        if i > 0 {
            push_str(output, ", ");
        }
        let ghost mid = output@;
        if exp.is_type_only {
            push_str(output, "type ");
        }
        if str_eq(exp.local.as_str(), exp.exported.as_str()) {
            push_str(output, exp.exported.as_str());
        } else {
            push_str(output, exp.local.as_str());
            push_str(output, " as ");
            push_str(output, exp.exported.as_str());
        }
        proof {
            let t = chosen.take(i + 1);
            assert(t.drop_last() == chosen.take(i as int));
            assert(t.last() == exp@);
            assert(output@ == mid + render_export(exp@));
            if i > 0 {
                assert(output@ == start + (join_exports(chosen.take(i as int)) + ", "@ + render_export(exp@)));
            } else {
                assert(chosen.take(0) == Seq::<ExportView>::empty());
                assert(output@ == start + render_export(exp@));
            }
        }
        i += 1;
    }
    assert(chosen.take(i as int) == chosen);
    push_str(output, " };");
}

/// `specs` already holds a specifier with the local name and key of `sp`.
pub open spec fn has_specifier(specs: Seq<SpecifierView>, sp: SpecifierView) -> bool {
    exists|i: int| 0 <= i < specs.len() && (#[trigger] specs[i]).local == sp.local && specs[i].kind.key() == sp.kind.key()
}

/// `existing` followed by those of `added` that it does not hold yet.
pub open spec fn add_specifiers(existing: Seq<SpecifierView>, added: Seq<SpecifierView>) -> Seq<SpecifierView>
    decreases added.len(),
{
    if added.len() == 0 {
        existing
    } else {
        let acc = add_specifiers(existing, added.drop_last());
        if has_specifier(acc, added.last()) {
            acc
        } else {
            acc.push(added.last())
        }
    }
}

/// The import `m` after merging `imp` (of the same source) into it: it is
/// type-only, or only for side effects, when both are.
pub open spec fn merge_into(m: ImportView, imp: ImportView) -> ImportView {
    let specs = add_specifiers(m.specifiers, imp.specifiers);
    ImportView {
        source: m.source,
        specifiers: specs,
        is_type_only: m.is_type_only && imp.is_type_only,
        side_effect_only: m.side_effect_only && imp.side_effect_only && specs.len() == 0,
        from_reexport: m.from_reexport,
    }
}

/// The first index at or after `i` of an import from `src`.
pub open spec fn source_slot(merged: Seq<ImportView>, src: Seq<char>, i: int) -> int
    decreases merged.len() - i,
{
    if i < 0 || i >= merged.len() {
        merged.len() as int
    } else if merged[i].source == src {
        i
    } else {
        source_slot(merged, src, i + 1)
    }
}

/// Merges `imp` into the import of the same source, or appends it.
pub open spec fn merge_import(merged: Seq<ImportView>, imp: ImportView) -> Seq<ImportView> {
    let p = source_slot(merged, imp.source, 0);
    if p < merged.len() {
        merged.update(p, merge_into(merged[p], imp))
    } else {
        merged.push(imp)
    }
}

/// The imports of `s` merged by source, in the order of first appearance.
pub open spec fn merge_imports(s: Seq<ImportView>) -> Seq<ImportView>
    decreases s.len(),
{
    if s.len() == 0 {
        Seq::empty()
    } else {
        merge_import(merge_imports(s.drop_last()), s.last())
    }
}

proof fn lemma_source_slot(merged: Seq<ImportView>, src: Seq<char>, i: int)
    requires
        0 <= i <= merged.len(),
    ensures
        i <= source_slot(merged, src, i) <= merged.len(),
        source_slot(merged, src, i) < merged.len() ==> merged[source_slot(merged, src, i)].source == src,
    decreases merged.len() - i,
{
    if i < merged.len() && merged[i].source != src {
        lemma_source_slot(merged, src, i + 1);
    }
}

/// Every import of `s` from `src` is type-only.
pub open spec fn all_type_only(s: Seq<ImportView>, src: Seq<char>) -> bool {
    forall|k: int| 0 <= k < s.len() && (#[trigger] s[k]).source == src ==> s[k].is_type_only
}

/// Law: merging yields one import per source of the input, and a merged
/// import is type-only exactly when every import of its source is.
pub proof fn law_merge_imports(s: Seq<ImportView>)
    ensures
        forall|i: int, j: int| 0 <= i < j < merge_imports(s).len()
            ==> (#[trigger] merge_imports(s)[i]).source != (#[trigger] merge_imports(s)[j]).source,
        forall|k: int| 0 <= k < s.len() ==> exists|i: int|
            0 <= i < merge_imports(s).len() && (#[trigger] merge_imports(s)[i]).source == (#[trigger] s[k]).source,
        forall|i: int| 0 <= i < merge_imports(s).len() ==>
            (#[trigger] merge_imports(s)[i]).is_type_only == all_type_only(s, merge_imports(s)[i].source),
    decreases s.len(),
{
    if s.len() > 0 {
        let prev = s.drop_last();
        let acc = merge_imports(prev);
        let e = s.last();
        law_merge_imports(prev);
        lemma_source_slot(acc, e.source, 0);
        let p = source_slot(acc, e.source, 0);
        let r = merge_imports(s);
        assert(r == merge_import(acc, e));
        if p >= acc.len() {
            assert forall|i: int| 0 <= i < acc.len() implies (#[trigger] acc[i]).source != e.source by {
                lemma_source_slot_first(acc, e.source, i);
            }
        }
        assert forall|i: int, j: int| 0 <= i < j < r.len() implies (#[trigger] r[i]).source != (#[trigger] r[j]).source by {
            if j < acc.len() {
                assert(r[i].source == acc[i].source && r[j].source == acc[j].source);
            }
        }
        assert forall|k: int| 0 <= k < s.len() implies exists|i: int|
            0 <= i < r.len() && (#[trigger] r[i]).source == (#[trigger] s[k]).source by {
            if k < prev.len() {
                assert(s[k] == prev[k]);
                let i0 = choose|i: int| 0 <= i < acc.len() && (#[trigger] acc[i]).source == (#[trigger] prev[k]).source;
                assert(r[i0].source == acc[i0].source);
            } else if p < acc.len() {
                assert(r[p].source == s[k].source);
            } else {
                assert(r[acc.len() as int] == e);
            }
        }
        assert forall|i: int| 0 <= i < r.len() implies
            (#[trigger] r[i]).is_type_only == all_type_only(s, r[i].source) by {
            let src = r[i].source;
            if i < acc.len() {
                assert(src == acc[i].source);
                assert(acc[i].is_type_only == all_type_only(prev, src));
                if i == p {
                    assert(r[i].is_type_only == (acc[i].is_type_only && e.is_type_only));
                } else {
                    assert(r[i] == acc[i]);
                    assert(e.source != src);
                }
                if all_type_only(s, src) {
                    assert forall|k: int| 0 <= k < prev.len() && (#[trigger] prev[k]).source == src implies prev[k].is_type_only by {
                        assert(s[k] == prev[k]);
                    }
                }
                if r[i].is_type_only {
                    assert forall|k: int| 0 <= k < s.len() && (#[trigger] s[k]).source == src implies s[k].is_type_only by {
                        if k < prev.len() {
                            assert(s[k] == prev[k]);
                        }
                    }
                }
            } else {
                assert(r[i] == e);
                if e.is_type_only {
                    assert forall|k: int| 0 <= k < s.len() && (#[trigger] s[k]).source == src implies s[k].is_type_only by {
                        if k < prev.len() {
                            assert(s[k] == prev[k]);
                            let i0 = choose|i: int| 0 <= i < acc.len() && (#[trigger] acc[i]).source == (#[trigger] prev[k]).source;
                            assert(acc[i0].source != e.source);
                        }
                    }
                }
            }
        }
    }
}

proof fn lemma_source_slot_first(merged: Seq<ImportView>, src: Seq<char>, i: int)
    requires
        0 <= i < merged.len(),
        source_slot(merged, src, 0) >= merged.len(),
    ensures
        merged[i].source != src,
{
    lemma_source_slot_before(merged, src, 0, i);
}

proof fn lemma_source_slot_before(merged: Seq<ImportView>, src: Seq<char>, j: int, i: int)
    requires
        0 <= j <= i < merged.len(),
        source_slot(merged, src, j) >= merged.len(),
    ensures
        merged[i].source != src,
    decreases i - j,
{
    if j < i {
        lemma_source_slot_before(merged, src, j + 1, i);
    }
}

/// Whether some specifier of `specs` has the local name and key of `sp`.
fn contains_specifier(specs: &Vec<ImportSpecifier>, sp: &ImportSpecifier) -> (r: bool)
    ensures
        r == has_specifier(specifier_views(specs@), sp@),
{
    let ghost views = specifier_views(specs@);
    let mut i: usize = 0;
    while i < specs.len()
        invariant
            0 <= i <= specs@.len(),
            views == specifier_views(specs@),
            forall|j: int| 0 <= j < i ==> !((#[trigger] views[j]).local == sp@.local && views[j].kind.key() == sp@.kind.key()),
        decreases specs@.len() - i,
    {
        let cur = &specs[i];
        assert(views[i as int] == cur@);
        if str_eq(cur.local.as_str(), sp.local.as_str()) && str_eq(cur.kind.sort_key(), sp.kind.sort_key()) {
            return true;
        }
        i += 1;
    }
    false
}

/// Merges the imports of `pending` by source, in the order of first appearance.
fn merge_external_imports(pending: Vec<ExternalImport>) -> (merged: Vec<ExternalImport>)
    ensures
        import_views(merged@) == merge_imports(import_views(pending@)),
{
    let ghost input = import_views(pending@);
    let mut pending = pending;
    let mut merged: Vec<ExternalImport> = Vec::new();
    let ghost mut k: int = 0;
    while pending.len() > 0
        invariant
            0 <= k <= input.len(),
            import_views(pending@) == input.skip(k),
            import_views(merged@) == merge_imports(input.take(k)),
        decreases pending@.len(),
    {
        let ghost before = pending@;
        let imp = pending.remove(0);
        proof {
            assert(import_views(pending@) =~= import_views(before).skip(1));
            assert(imp@ == import_views(before)[0]);
            assert(input.skip(k)[0] == input[k]);
            assert(input.skip(k + 1) =~= input.skip(k).skip(1));
            assert(input.take(k + 1).drop_last() =~= input.take(k));
            assert(input.take(k + 1).last() == input[k]);
        }
        let ghost acc = import_views(merged@);
        let mut p: usize = 0;
        while p < merged.len()
            invariant
                0 <= p <= merged@.len(),
                acc == import_views(merged@),
                source_slot(acc, imp@.source, 0) == source_slot(acc, imp@.source, p as int),
            ensures
                0 <= p <= merged@.len(),
                source_slot(acc, imp@.source, 0) == source_slot(acc, imp@.source, p as int),
                p < merged@.len() ==> acc[p as int].source == imp@.source,
            decreases merged@.len() - p,
        {
            assert(acc[p as int] == merged@[p as int]@);
            if str_eq(merged[p].source.as_str(), imp.source.as_str()) {
                break;
            }
            p += 1;
        }
        proof {
            lemma_source_slot(acc, imp@.source, p as int);
        }
        if p < merged.len() {
            assert(source_slot(acc, imp@.source, 0) == p);
            let ghost merged_before = merged@;
            let mut existing = merged.remove(p);
            assert(existing@ == acc[p as int]);
            let ghost orig_specs = existing@.specifiers;
            assert(imp@ == input[k]);
            let ExternalImport { source: _, specifiers: added, is_type_only, side_effect_only, from_reexport: _ } = imp;
            let ghost added_views = specifier_views(added@);
            existing.is_type_only = existing.is_type_only && is_type_only;
            existing.side_effect_only = existing.side_effect_only && side_effect_only;
            let mut added = added;
            let ghost mut j: int = 0;
            while added.len() > 0
                invariant
                    0 <= j <= added_views.len(),
                    specifier_views(added@) == added_views.skip(j),
                    specifier_views(existing.specifiers@) == add_specifiers(orig_specs, added_views.take(j)),
                    existing@.source == acc[p as int].source,
                    existing@.from_reexport == acc[p as int].from_reexport,
                    existing@.is_type_only == (acc[p as int].is_type_only && input[k].is_type_only),
                    existing@.side_effect_only == (acc[p as int].side_effect_only && input[k].side_effect_only),
                decreases added@.len(),
            {
                let ghost before_added = added@;
                let sp = added.remove(0);
                proof {
                    assert(specifier_views(added@) =~= specifier_views(before_added).skip(1));
                    assert(sp@ == added_views.skip(j)[0]);
                    assert(added_views.skip(j + 1) =~= added_views.skip(j).skip(1));
                    assert(added_views.take(j + 1).drop_last() =~= added_views.take(j));
                    assert(added_views.take(j + 1).last() == added_views[j]);
                }
                if !contains_specifier(&existing.specifiers, &sp) {
                    existing.specifiers.push(sp);
                    assert(specifier_views(existing.specifiers@) =~= add_specifiers(orig_specs, added_views.take(j)).push(sp@));
                }
                proof { j = j + 1; }
            }
            assert(added_views.take(j) =~= added_views);
            if existing.specifiers.len() > 0 {
                existing.side_effect_only = false;
            }
            assert(added_views == input[k].specifiers);
            assert(existing@.specifiers == add_specifiers(acc[p as int].specifiers, input[k].specifiers));
            assert(existing@.is_type_only == (acc[p as int].is_type_only && input[k].is_type_only));
            assert(existing@.source == acc[p as int].source);
            assert(existing@.from_reexport == acc[p as int].from_reexport);
            assert(existing@ == merge_into(acc[p as int], input[k]));
            merged.insert(p, existing);
            assert(import_views(merged@) =~= acc.update(p as int, merge_into(acc[p as int], input[k])));
        } else {
            merged.push(imp);
            assert(import_views(merged@) =~= acc.push(input[k]));
        }
        proof { k = k + 1; }
    }
    assert(input.take(k) =~= input);
    merged
}

/// The first index at or after `i` whose specifier sorts after `sp`.
pub open spec fn specifier_slot(acc: Seq<SpecifierView>, sp: SpecifierView, i: int) -> int
    decreases acc.len() - i,
{
    if i < 0 || i >= acc.len() {
        acc.len() as int
    } else if seq_lt(sp.kind.key(), acc[i].kind.key()) {
        i
    } else {
        specifier_slot(acc, sp, i + 1)
    }
}

/// The specifiers of `s`, stably ordered by key.
pub open spec fn sort_specifiers(s: Seq<SpecifierView>) -> Seq<SpecifierView>
    decreases s.len(),
{
    if s.len() == 0 {
        Seq::empty()
    } else {
        let acc = sort_specifiers(s.drop_last());
        acc.insert(specifier_slot(acc, s.last(), 0), s.last())
    }
}

proof fn lemma_specifier_slot(acc: Seq<SpecifierView>, sp: SpecifierView, i: int)
    requires
        0 <= i <= acc.len(),
    ensures
        i <= specifier_slot(acc, sp, i) <= acc.len(),
        forall|k: int| i <= k < specifier_slot(acc, sp, i) ==> !seq_lt(sp.kind.key(), (#[trigger] acc[k]).kind.key()),
        specifier_slot(acc, sp, i) < acc.len() ==> seq_lt(sp.kind.key(), acc[specifier_slot(acc, sp, i)].kind.key()),
    decreases acc.len() - i,
{
    if i < acc.len() && !seq_lt(sp.kind.key(), acc[i].kind.key()) {
        lemma_specifier_slot(acc, sp, i + 1);
    }
}

/// The specifiers ordered by key; specifiers with equal keys keep their order.
fn sort_specifiers_by_key(specs: Vec<ImportSpecifier>) -> (r: Vec<ImportSpecifier>)
    ensures
        specifier_views(r@) == sort_specifiers(specifier_views(specs@)),
{
    let ghost input = specifier_views(specs@);
    let mut pending = specs;
    let mut sorted: Vec<ImportSpecifier> = Vec::new();
    let ghost mut k: int = 0;
    while pending.len() > 0
        invariant
            0 <= k <= input.len(),
            specifier_views(pending@) == input.skip(k),
            specifier_views(sorted@) == sort_specifiers(input.take(k)),
        decreases pending@.len(),
    {
        let ghost before = pending@;
        let sp = pending.remove(0);
        proof {
            assert(specifier_views(pending@) =~= specifier_views(before).skip(1));
            assert(sp@ == input.skip(k)[0]);
            assert(input.skip(k + 1) =~= input.skip(k).skip(1));
            assert(input.take(k + 1).drop_last() =~= input.take(k));
            assert(input.take(k + 1).last() == input[k]);
        }
        let ghost acc = specifier_views(sorted@);
        let mut p: usize = 0;
        while p < sorted.len()
            invariant
                0 <= p <= sorted@.len(),
                acc == specifier_views(sorted@),
                specifier_slot(acc, sp@, 0) == specifier_slot(acc, sp@, p as int),
            ensures
                0 <= p <= sorted@.len(),
                specifier_slot(acc, sp@, 0) == specifier_slot(acc, sp@, p as int),
                p < sorted@.len() ==> seq_lt(sp@.kind.key(), acc[p as int].kind.key()),
            decreases sorted@.len() - p,
        {
            assert(acc[p as int] == sorted@[p as int]@);
            if str_lt(sp.kind.sort_key(), sorted[p].kind.sort_key()) {
                break;
            }
            p += 1;
        }
        proof {
            lemma_specifier_slot(acc, sp@, p as int);
            assert(specifier_slot(acc, sp@, 0) == p);
        }
        sorted.insert(p, sp);
        assert(specifier_views(sorted@) =~= acc.insert(p as int, input[k]));
        proof { k = k + 1; }
    }
    assert(input.take(k) =~= input);
    sorted
}

/// `type ` for a type-only import.
pub open spec fn type_prefix(m: ImportView) -> Seq<char> {
    if m.is_type_only { "type "@ } else { Seq::empty() }
}

/// One `import * as X from "src";` line per namespace specifier, in order.
pub open spec fn namespace_lines(specs: Seq<SpecifierView>, tp: Seq<char>, src: Seq<char>) -> Seq<char>
    decreases specs.len(),
{
    if specs.len() == 0 {
        Seq::empty()
    } else {
        namespace_lines(specs.drop_last(), tp, src) + if specs.last().kind is Namespace {
            "import "@ + tp + "* as "@ + specs.last().local + " from \""@ + src + "\";\n"@
        } else {
            Seq::empty()
        }
    }
}

/// The local name of the first default specifier.
pub open spec fn first_default(specs: Seq<SpecifierView>) -> Option<Seq<char>>
    decreases specs.len(),
{
    if specs.len() == 0 {
        None
    } else if specs[0].kind is Default {
        Some(specs[0].local)
    } else {
        first_default(specs.drop_first())
    }
}

/// `imported` or `imported as local` for a named specifier.
pub open spec fn named_part(sp: SpecifierView) -> Seq<char> {
    match sp.kind {
        KindView::Named(n) => if sp.local == n { n } else { n + " as "@ + sp.local },
        _ => Seq::empty(),
    }
}

/// The named specifiers of `specs`, rendered, in order.
pub open spec fn named_parts(specs: Seq<SpecifierView>) -> Seq<Seq<char>>
    decreases specs.len(),
{
    if specs.len() == 0 {
        Seq::empty()
    } else {
        named_parts(specs.drop_last()) + if specs.last().kind is Named {
            seq![named_part(specs.last())]
        } else {
            Seq::empty()
        }
    }
}

/// `parts` separated by `, `.
pub open spec fn join_parts(parts: Seq<Seq<char>>) -> Seq<char>
    decreases parts.len(),
{
    if parts.len() == 0 {
        Seq::empty()
    } else if parts.len() == 1 {
        parts[0]
    } else {
        join_parts(parts.drop_last()) + ", "@ + parts.last()
    }
}

/// The clause of the combined default-and-named import: `D`, `{ a, b as c }`
/// or `D, { a }`.
pub open spec fn import_clause(specs: Seq<SpecifierView>) -> Seq<char> {
    let named = named_parts(specs);
    let braces = "{ "@ + join_parts(named) + " }"@;
    match first_default(specs) {
        Some(l) => if named.len() > 0 { l + ", "@ + braces } else { l },
        None => braces,
    }
}

/// The statements for one merged import: a bare `import "src";` when it only
/// runs the module, else a line per namespace specifier, then one line for
/// the default and named specifiers, if any.
pub open spec fn render_import(m: ImportView) -> Seq<char> {
    if m.side_effect_only || m.specifiers.len() == 0 {
        "import \""@ + m.source + "\";\n"@
    } else {
        namespace_lines(m.specifiers, type_prefix(m), m.source) + if first_default(m.specifiers) is None
            && named_parts(m.specifiers).len() == 0 {
            Seq::empty()
        } else {
            "import "@ + type_prefix(m) + import_clause(m.specifiers) + " from \""@ + m.source + "\";\n"@
        }
    }
}

/// The statements for the merged imports `ms`, in order.
pub open spec fn render_imports(ms: Seq<ImportView>) -> Seq<char>
    decreases ms.len(),
{
    if ms.len() == 0 {
        Seq::empty()
    } else {
        render_imports(ms.drop_last()) + render_import(ms.last())
    }
}

/// The import `m` with its specifiers ordered by key.
pub open spec fn with_sorted_specifiers(m: ImportView) -> ImportView {
    ImportView {
        source: m.source,
        specifiers: sort_specifiers(m.specifiers),
        is_type_only: m.is_type_only,
        side_effect_only: m.side_effect_only,
        from_reexport: m.from_reexport,
    }
}

/// The text written for the external imports `s`: merged by source, in the
/// order of first appearance, each with its specifiers ordered by key.
pub open spec fn external_imports_text(s: Seq<ImportView>) -> Seq<char> {
    render_imports(merge_imports(s).map_values(|m: ImportView| with_sorted_specifiers(m)))
}

/// Writes one `import * as X from "src";` line per namespace specifier.
fn write_namespace_lines(m: &ExternalImport, output: &mut String)
    ensures
        final(output)@ == old(output)@ + namespace_lines(m@.specifiers, type_prefix(m@), m@.source),
{
    let ghost specs = m@.specifiers;
    let ghost base = output@;
    let mut i: usize = 0;
    while i < m.specifiers.len()
        invariant
            0 <= i <= specs.len(),
            specs == specifier_views(m.specifiers@),
            output@ == base + namespace_lines(specs.take(i as int), type_prefix(m@), m@.source),
        decreases specs.len() - i,
    {
        let sp = &m.specifiers[i];
        assert(specs[i as int] == sp@);
        if let ImportSpecifierKind::Namespace = sp.kind {
            push_str(output, "import ");
            if m.is_type_only {
                push_str(output, "type ");
            }
            push_str(output, "* as ");
            push_str(output, sp.local.as_str());
            push_str(output, " from \"");
            push_str(output, m.source.as_str());
            push_str(output, "\";\n");
        }
        proof {
            let t = specs.take(i + 1);
            assert(t.drop_last() =~= specs.take(i as int));
            assert(t.last() == sp@);
        }
        i += 1;
    }
    assert(specs.take(i as int) =~= specs);
}

/// The index of the first default specifier, or the number of specifiers.
fn first_default_index(specs: &Vec<ImportSpecifier>) -> (d: usize)
    ensures
        d <= specs@.len(),
        d < specs@.len() ==> specs@[d as int]@.kind is Default
            && first_default(specifier_views(specs@)) == Some(specs@[d as int]@.local),
        d == specs@.len() ==> first_default(specifier_views(specs@)) is None,
{
    let ghost views = specifier_views(specs@);
    let mut d: usize = 0;
    assert(views.skip(0) =~= views);
    while d < specs.len()
        invariant
            0 <= d <= views.len(),
            views == specifier_views(specs@),
            first_default(views) == first_default(views.skip(d as int)),
        ensures
            0 <= d <= views.len(),
            first_default(views) == first_default(views.skip(d as int)),
            d < views.len() ==> views[d as int].kind is Default,
        decreases views.len() - d,
    {
        if let ImportSpecifierKind::Default = specs[d].kind {
            break;
        }
        assert(views.skip(d as int).drop_first() =~= views.skip(d + 1));
        d += 1;
    }
    if d == specs.len() {
        assert(views.skip(d as int).len() == 0);
    }
    d
}

/// The number of named specifiers.
fn count_named(specs: &Vec<ImportSpecifier>) -> (n: usize)
    ensures
        n == named_parts(specifier_views(specs@)).len(),
{
    let ghost views = specifier_views(specs@);
    let mut named: usize = 0;
    let mut j: usize = 0;
    while j < specs.len()
        invariant
            0 <= j <= views.len(),
            views == specifier_views(specs@),
            named == named_parts(views.take(j as int)).len(),
            named <= j,
        decreases views.len() - j,
    {
        proof {
            let t = views.take(j + 1);
            assert(t.drop_last() =~= views.take(j as int));
            assert(t.last() == views[j as int]);
        }
        if let ImportSpecifierKind::Named(_) = specs[j].kind {
            named += 1;
        }
        j += 1;
    }
    assert(views.take(j as int) =~= views);
    named
}

/// Writes the named specifiers, rendered and separated by `, `.
fn write_named_list(specs: &Vec<ImportSpecifier>, output: &mut String)
    ensures
        final(output)@ == old(output)@ + join_parts(named_parts(specifier_views(specs@))),
{
    let ghost views = specifier_views(specs@);
    let ghost join_start = output@;
    let mut written: usize = 0;
    let mut k: usize = 0;
    while k < specs.len()
        invariant
            0 <= k <= views.len(),
            views == specifier_views(specs@),
            written == named_parts(views.take(k as int)).len(),
            written <= k,
            output@ == join_start + join_parts(named_parts(views.take(k as int))),
        decreases views.len() - k,
    {
        let sp = &specs[k];
        assert(views[k as int] == sp@);
        let ghost prev_parts = named_parts(views.take(k as int));
        proof {
            let t = views.take(k + 1);
            assert(t.drop_last() =~= views.take(k as int));
            assert(t.last() == sp@);
        }
        if let ImportSpecifierKind::Named(imported) = &sp.kind {
            if written > 0 {
                push_str(output, ", ");
            }
            if str_eq(sp.local.as_str(), imported.as_str()) {
                push_str(output, imported.as_str());
            } else {
                push_str(output, imported.as_str());
                push_str(output, " as ");
                push_str(output, sp.local.as_str());
            }
            proof {
                let parts = named_parts(views.take(k + 1));
                assert(parts =~= prev_parts.push(named_part(sp@)));
                assert(parts.drop_last() =~= prev_parts);
                if written > 0 {
                    assert(output@ =~= join_start + (join_parts(prev_parts) + ", "@ + named_part(sp@)));
                } else {
                    assert(prev_parts.len() == 0);
                    assert(output@ =~= join_start + named_part(sp@));
                }
            }
            written += 1;
        } else {
            assert(named_parts(views.take(k + 1)) =~= prev_parts);
        }
        k += 1;
    }
    assert(views.take(k as int) =~= views);
}

/// Writes the clause of the combined default-and-named import.
fn write_import_clause(m: &ExternalImport, d: usize, named: usize, output: &mut String)
    requires
        d <= m@.specifiers.len(),
        d < m@.specifiers.len() ==> first_default(m@.specifiers) == Some(m@.specifiers[d as int].local),
        d == m@.specifiers.len() ==> first_default(m@.specifiers) is None,
        named == named_parts(m@.specifiers).len(),
        d < m@.specifiers.len() || named > 0,
    ensures
        final(output)@ == old(output)@ + import_clause(m@.specifiers),
{
    let ghost specs = m@.specifiers;
    let ghost clause_start = output@;
    let has_default = d < m.specifiers.len();
    if has_default {
        assert(specs[d as int] == m.specifiers@[d as int]@);
        push_str(output, m.specifiers[d].local.as_str());
        if named > 0 {
            push_str(output, ", ");
        }
    }
    if named > 0 {
        push_str(output, "{ ");
        write_named_list(&m.specifiers, output);
        push_str(output, " }");
    }
    proof {
        let named_seq = named_parts(specs);
        let braces = "{ "@ + join_parts(named_seq) + " }"@;
        if has_default {
            let l = specs[d as int].local;
            if named > 0 {
                assert(output@ =~= clause_start + (l + ", "@ + braces));
            } else {
                assert(output@ =~= clause_start + l);
            }
        } else {
            assert(output@ =~= clause_start + braces);
        }
    }
}

/// Writes the statements of one merged import.
fn write_import(m: &ExternalImport, output: &mut String)
    ensures
        final(output)@ == old(output)@ + render_import(m@),
{
    let ghost specs = m@.specifiers;
    if m.side_effect_only || m.specifiers.len() == 0 {
        push_str(output, "import \"");
        push_str(output, m.source.as_str());
        push_str(output, "\";\n");
        return;
    }
    let ghost base = output@;
    write_namespace_lines(m, output);
    let ghost ns = output@;
    let d = first_default_index(&m.specifiers);
    let named = count_named(&m.specifiers);
    let has_default = d < m.specifiers.len();
    if !has_default && named == 0 {
        assert(output@ =~= base + namespace_lines(specs, type_prefix(m@), m@.source) + Seq::<char>::empty());
        return;
    }
    push_str(output, "import ");
    if m.is_type_only {
        push_str(output, "type ");
    }
    write_import_clause(m, d, named, output);
    push_str(output, " from \"");
    push_str(output, m.source.as_str());
    push_str(output, "\";\n");
    proof {
        let line = "import "@ + type_prefix(m@) + import_clause(specs) + " from \""@ + m@.source + "\";\n"@;
        assert(output@ =~= ns + line);
        assert(ns == base + namespace_lines(specs, type_prefix(m@), m@.source));
        assert(output@ =~= base + (namespace_lines(specs, type_prefix(m@), m@.source) + line));
    }
}

/// Writes the external import statements: imports are merged by source (in
/// the order in which each source first appears; a merged import is
/// type-only, or only for side effects, when every import it merges is),
/// each one's specifiers are deduplicated and stably ordered by key, and the
/// statements of each are written in turn. `imports` is left empty.
pub fn write_external_imports(imports: &mut Vec<ExternalImport>, output: &mut String)
    ensures
        final(imports)@.len() == 0,
        final(output)@ == old(output)@ + external_imports_text(import_views(old(imports)@)),
{
    let mut pending: Vec<ExternalImport> = Vec::new();
    std::mem::swap(imports, &mut pending);
    let ghost input = import_views(pending@);
    let merged = merge_external_imports(pending);
    let ghost merged_views = import_views(merged@);
    let mut merged = merged;
    let ghost mut n: int = 0;
    let mut finished: Vec<ExternalImport> = Vec::new();
    while merged.len() > 0
        invariant
            0 <= n <= merged_views.len(),
            import_views(merged@) == merged_views.skip(n),
            import_views(finished@) == merged_views.take(n).map_values(|m: ImportView| with_sorted_specifiers(m)),
        decreases merged@.len(),
    {
        let ghost before = merged@;
        let m = merged.remove(0);
        proof {
            assert(import_views(merged@) =~= import_views(before).skip(1));
            assert(m@ == merged_views.skip(n)[0]);
            assert(merged_views.skip(n + 1) =~= merged_views.skip(n).skip(1));
        }
        let ghost mv = m@;
        let ghost finished_before = finished@;
        let ExternalImport { source, specifiers, is_type_only, side_effect_only, from_reexport } = m;
        let specifiers = sort_specifiers_by_key(specifiers);
        let sorted_import = ExternalImport { source, specifiers, is_type_only, side_effect_only, from_reexport };
        assert(sorted_import@ == with_sorted_specifiers(mv));
        finished.push(sorted_import);
        proof {
            assert(import_views(finished@) =~= import_views(finished_before).push(with_sorted_specifiers(mv)));
            assert(merged_views.take(n + 1) =~= merged_views.take(n).push(mv));
            assert(import_views(finished@) =~= merged_views.take(n + 1).map_values(|m: ImportView| with_sorted_specifiers(m)));
            n = n + 1;
        }
    }
    let ghost all = merged_views.map_values(|m: ImportView| with_sorted_specifiers(m));
    assert(merged_views.take(n) =~= merged_views);
    let ghost base = output@;
    let mut i: usize = 0;
    while i < finished.len()
        invariant
            0 <= i <= finished@.len(),
            import_views(finished@) == all,
            output@ == base + render_imports(all.take(i as int)),
        decreases finished@.len() - i,
    {
        let ghost before = output@;
        write_import(&finished[i], output);
        proof {
            let t = all.take(i + 1);
            assert(t.drop_last() =~= all.take(i as int));
            assert(t.last() == finished@[i as int]@);
            assert(output@ =~= base + (render_imports(all.take(i as int)) + render_import(t.last())));
        }
        i += 1;
    }
    assert(all.take(i as int) =~= all);
}

} // verus!
