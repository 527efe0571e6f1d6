//! What the rewriting of a rendered module decides: member-access chains
//! through namespace imports lose their alias, and inline `import("..")`
//! types become names (of an external namespace import, of a declared
//! internal namespace, or the qualified name inside an internal module).

use vstd::prelude::*;

use crate::analysis::GenerateAcc;
use crate::assemble::{namespace_wrapper_text, wrapper_block};
use crate::link_types::{ExportedName, ExternalImport, ImportSpecifier, ImportSpecifierKind, NamespaceWrapInfo};
use crate::model::{resolve_internal, ModuleIdx, ModuleTable};
use crate::namespace::{get_or_create_ns_name, helper_rename_message, ns_choice_ok, ns_lookup, pair_views};
use crate::needed_names::{all_exported_names, collect_all_exported_names};
use crate::paths::{file_name, name_stem, name_stem_of, path_file_name};
use crate::rename::str_views;
use crate::text::{
    lemma_seq_lt_total, lemma_seq_lt_trans, push_str, sanitize_to_identifier, sanitized_char, seq_lt, str_chars, str_eq, str_lt,
    string_clone,
};
use crate::tsconfig::{find_chars, find_from};

verus! {

/// Per-entry state that the rewriting of modules shares.
pub struct EntryState {
    pub acc: GenerateAcc,
    /// `declare namespace` blocks for `typeof import("./internal")`.
    pub ns_wrapper_blocks: String,
    /// Helper namespace names of specifiers.
    pub ns_name_map: Vec<(String, String)>,
    pub warnings: Vec<String>,
}

// ---------------------------------------------------------------------------
// Namespace-alias chains.

/// The members accessed through external namespace imports, per source.
pub open spec fn accessed_views(a: Seq<(String, Vec<String>)>) -> Seq<(Seq<char>, Seq<Seq<char>>)> {
    a.map_values(|e: (String, Vec<String>)| (e.0@, str_views(e.1@)))
}

/// The index of the first entry for source `src`.
pub open spec fn source_entry(a: Seq<(Seq<char>, Seq<Seq<char>>)>, src: Seq<char>) -> Option<int>
    decreases a.len(),
{
    if a.len() == 0 {
        None
    } else {
        match source_entry(a.drop_last(), src) {
            Some(i) => Some(i),
            None => if a.last().0 == src {
                Some(a.len() - 1)
            } else {
                None
            },
        }
    }
}

/// Recording that member `member` of source `src` is accessed: it is
/// added, once, to the first entry for `src` (a new entry if there is none).
pub open spec fn record_member(a: Seq<(Seq<char>, Seq<Seq<char>>)>, src: Seq<char>, member: Seq<char>) -> Seq<(Seq<char>, Seq<Seq<char>>)> {
    match source_entry(a, src) {
        Some(i) => if a[i].1.contains(member) {
            a
        } else {
            a.update(i, (a[i].0, a[i].1.push(member)))
        },
        None => a.push((src, seq![member])),
    }
}

proof fn lemma_source_entry_bounds(a: Seq<(Seq<char>, Seq<Seq<char>>)>, src: Seq<char>)
    ensures
        source_entry(a, src) matches Some(i) ==> 0 <= i < a.len() && a[i].0 == src,
        source_entry(a, src) is None ==> forall|i: int| 0 <= i < a.len() ==> a[i].0 != src,
    decreases a.len(),
{
    if a.len() > 0 {
        let d = a.drop_last();
        lemma_source_entry_bounds(d, src);
        assert forall|i: int| 0 <= i < d.len() implies d[i] == a[i] by {}
        if source_entry(a, src) is None {
            assert forall|i: int| 0 <= i < a.len() implies a[i].0 != src by {
                if i < d.len() {
                    assert(d[i] == a[i]);
                }
            }
        }
    }
}

proof fn lemma_source_entry_first(a: Seq<(Seq<char>, Seq<Seq<char>>)>, src: Seq<char>, i: int)
    requires
        0 <= i < a.len(),
        a[i].0 == src,
        forall|j: int| 0 <= j < i ==> a[j].0 != src,
    ensures
        source_entry(a, src) == Some(i),
    decreases a.len(),
{
    if i < a.len() - 1 {
        lemma_source_entry_first(a.drop_last(), src, i);
    } else {
        lemma_source_entry_bounds(a.drop_last(), src);
    }
}

/// Records that member `member` of the external source `src` is accessed.
pub fn record_external_member(accessed: &mut Vec<(String, Vec<String>)>, src: &str, member: &str)
    ensures
        accessed_views(final(accessed)@) == record_member(accessed_views(old(accessed)@), src@, member@),
{
    let ghost a0 = accessed_views(accessed@);
    let mut i: usize = 0;
    while i < accessed.len()
        invariant
            0 <= i <= accessed@.len(),
            a0 == accessed_views(accessed@),
            a0 == accessed_views(old(accessed)@),
            forall|j: int| 0 <= j < i ==> a0[j].0 != src@,
        decreases accessed@.len() - i,
    {
        if str_eq(accessed[i].0.as_str(), src) {
            proof {
                lemma_source_entry_first(a0, src@, i as int);
            }
            assert(a0[i as int] == (accessed@[i as int].0@, str_views(accessed@[i as int].1@)));
            if crate::rename::contains_name(&accessed[i].1, member) {
                assert(record_member(a0, src@, member@) == a0);
                return;
            }
            let ghost v0 = accessed@;
            let mut entry = accessed.remove(i);
            let ghost e0 = entry;
            entry.1.push(string_clone(member));
            assert(str_views(entry.1@) =~= str_views(e0.1@).push(member@));
            accessed.insert(i, entry);
            assert(accessed@ =~= v0.update(i as int, entry));
            assert(accessed_views(accessed@) =~= a0.update(i as int, (a0[i as int].0, a0[i as int].1.push(member@))));
            assert(record_member(a0, src@, member@) == a0.update(i as int, (a0[i as int].0, a0[i as int].1.push(member@))));
            return;
        }
        i += 1;
    }
    proof {
        lemma_source_entry_bounds(a0, src@);
        if source_entry(a0, src@) is Some {
            let k = source_entry(a0, src@).unwrap();
            assert(a0[k].0 == src@);
        }
    }
    let mut members: Vec<String> = Vec::new();
    members.push(string_clone(member));
    assert(str_views(members@) =~= seq![member@]);
    let ghost v0 = accessed@;
    accessed.push((string_clone(src), members));
    assert(accessed@ =~= v0.push(accessed@.last()));
    assert(accessed_views(accessed@) =~= a0.push((src@, seq![member@])));
}

/// What a member-access chain `segments` (`a.b.c`) becomes: when its root
/// is an external namespace import of `external_source`, the member it
/// accesses is recorded in `accessed` first; when the root is a namespace
/// alias, the chain loses it (`b.c`); else it stays (`None`). A chain of
/// fewer than two names is left alone.
pub fn flatten_namespace_chain(
    is_ns_alias: bool,
    external_source: Option<&str>,
    segments: &Vec<String>,
    accessed: &mut Vec<(String, Vec<String>)>,
) -> (r: Option<Vec<String>>)
    ensures
        segments@.len() < 2 ==> r is None && final(accessed)@ == old(accessed)@,
        segments@.len() >= 2 ==> {
            &&& accessed_views(final(accessed)@) == match external_source {
                Some(src) => record_member(accessed_views(old(accessed)@), src@, segments@[1]@),
                None => accessed_views(old(accessed)@),
            }
            &&& match r {
                Some(v) => is_ns_alias && str_views(v@) == str_views(segments@).skip(1),
                None => !is_ns_alias,
            }
        },
{
    if segments.len() < 2 {
        return None;
    }
    match external_source {
        Some(src) => record_external_member(accessed, src, segments[1].as_str()),
        None => {},
    }
    if !is_ns_alias {
        return None;
    }
    let mut out: Vec<String> = Vec::new();
    let mut i: usize = 1;
    while i < segments.len()
        invariant
            1 <= i <= segments@.len(),
            str_views(out@) == str_views(segments@).subrange(1, i as int),
        decreases segments@.len() - i,
    {
        let ghost o0 = str_views(out@);
        out.push(string_clone(segments[i].as_str()));
        assert(str_views(out@) =~= o0.push(segments@[i as int]@));
        assert(str_views(out@) =~= str_views(segments@).subrange(1, i + 1));
        i += 1;
    }
    assert(str_views(segments@).subrange(1, i as int) =~= str_views(segments@).skip(1));
    Some(out)
}

// ---------------------------------------------------------------------------
// Inline `import("..")` types.

/// `i` is the first import of source `s`.
pub open spec fn is_first_import(imports: Seq<ExternalImport>, s: Seq<char>, i: int) -> bool {
    &&& 0 <= i < imports.len()
    &&& imports[i].source@ == s
    &&& forall|j: int| 0 <= j < i ==> #[trigger] imports[j].source@ != s
}

/// `j` is the first namespace specifier.
pub open spec fn is_first_ns(specs: Seq<ImportSpecifier>, j: int) -> bool {
    &&& 0 <= j < specs.len()
    &&& specs[j].kind is Namespace
    &&& forall|k: int| 0 <= k < j ==> !(#[trigger] specs[k].kind is Namespace)
}

/// The local name of the namespace specifier of the first import of
/// source `s`, if it has one.
pub open spec fn existing_ns_local(imports: Seq<ExternalImport>, s: Seq<char>) -> Option<Seq<char>> {
    if exists|i: int| is_first_import(imports, s, i) {
        let i = choose|i: int| is_first_import(imports, s, i);
        if exists|j: int| is_first_ns(imports[i].specifiers@, j) {
            let j = choose|j: int| is_first_ns(imports[i].specifiers@, j);
            Some(imports[i].specifiers@[j].local@)
        } else {
            None
        }
    } else {
        None
    }
}

/// The local name of the namespace import the kept imports have for `s`.
fn existing_namespace_import(imports: &Vec<ExternalImport>, s: &str) -> (r: Option<String>)
    ensures
        match r {
            Some(n) => existing_ns_local(imports@, s@) == Some(n@),
            None => existing_ns_local(imports@, s@) is None,
        },
{
    let mut i: usize = 0;
    while i < imports.len()
        invariant
            0 <= i <= imports@.len(),
            forall|j: int| 0 <= j < i ==> #[trigger] imports@[j].source@ != s@,
        decreases imports@.len() - i,
    {
        if str_eq(imports[i].source.as_str(), s) {
            let specs = &imports[i].specifiers;
            let mut j: usize = 0;
            while j < specs.len()
                invariant
                    0 <= j <= specs@.len(),
                    *specs == imports@[i as int].specifiers,
                    i < imports@.len(),
                    imports@[i as int].source@ == s@,
                    forall|q: int| 0 <= q < i ==> #[trigger] imports@[q].source@ != s@,
                    forall|k: int| 0 <= k < j ==> !(#[trigger] specs@[k].kind is Namespace),
                decreases specs@.len() - j,
            {
                match specs[j].kind {
                    ImportSpecifierKind::Namespace => {
                        proof {
                            assert(is_first_import(imports@, s@, i as int));
                            let i2 = choose|i2: int| is_first_import(imports@, s@, i2);
                            if i2 < i {
                                assert(imports@[i2].source@ != s@);
                            }
                            if i < i2 {
                                assert(imports@[i as int].source@ != s@);
                            }
                            assert(i2 == i);
                            assert(is_first_ns(specs@, j as int));
                            let j2 = choose|j2: int| is_first_ns(specs@, j2);
                            if j2 < j {
                                assert(!(specs@[j2].kind is Namespace));
                            }
                            if j < j2 {
                                assert(!(specs@[j as int].kind is Namespace));
                            }
                            assert(j2 == j);
                            assert(existing_ns_local(imports@, s@) == Some(specs@[j as int].local@));
                        }
                        return Some(string_clone(specs[j].local.as_str()));
                    },
                    _ => {},
                }
                j += 1;
            }
            proof {
                assert(is_first_import(imports@, s@, i as int));
                let i2 = choose|i2: int| is_first_import(imports@, s@, i2);
                if i2 < i {
                    assert(imports@[i2].source@ != s@);
                }
                if i < i2 {
                    assert(imports@[i as int].source@ != s@);
                }
                assert(i2 == i);
                assert(!exists|j2: int| is_first_ns(specs@, j2));
            }
            return None;
        }
        i += 1;
    }
    assert(!exists|i2: int| is_first_import(imports@, s@, i2));
    None
}

/// The helper name recorded for specifier `s`, if any.
fn lookup_ns_name(map: &Vec<(String, String)>, s: &str) -> (r: Option<String>)
    ensures
        match r {
            Some(n) => ns_lookup(pair_views(map@), s@) == Some(n@),
            None => ns_lookup(pair_views(map@), s@) is None,
        },
{
    let ghost mv = pair_views(map@);
    let mut i: usize = 0;
    assert(mv.skip(0) =~= mv);
    while i < map.len()
        invariant
            0 <= i <= mv.len(),
            mv == pair_views(map@),
            ns_lookup(mv, s@) == ns_lookup(mv.skip(i as int), s@),
        decreases mv.len() - i,
    {
        assert(mv.skip(i as int).drop_first() =~= mv.skip(i + 1));
        if str_eq(map[i].0.as_str(), s) {
            return Some(string_clone(map[i].1.as_str()));
        }
        i += 1;
    }
    assert(mv.skip(i as int) =~= Seq::<(Seq<char>, Seq<char>)>::empty());
    None
}

/// What getting a helper namespace name for `s` (with base name `base`)
/// may do to the name map and the warnings, returning `r`: the recorded
/// name, else a fresh choice that is recorded (with a warning when it is
/// not `base`).
pub open spec fn ns_name_step(
    map0: Seq<(Seq<char>, Seq<char>)>,
    w0: Seq<Seq<char>>,
    reserved: Seq<Seq<char>>,
    s: Seq<char>,
    base: Seq<char>,
    r: Seq<char>,
    map1: Seq<(Seq<char>, Seq<char>)>,
    w1: Seq<Seq<char>>,
) -> bool {
    match ns_lookup(map0, s) {
        Some(v) => r == v && map1 == map0 && w1 == w0,
        None => {
            &&& ns_choice_ok(base, map0.map_values(|e: (Seq<char>, Seq<char>)| e.1), reserved, r)
            &&& map1 == map0.push((s, r))
            &&& w1 == w0 + if r != base {
                seq![helper_rename_message(base, s)]
            } else {
                Seq::empty()
            }
        },
    }
}

/// The namespace import `import * as r from "s"` added for an external module.
pub open spec fn is_new_ns_import(imp: ExternalImport, s: Seq<char>, r: Seq<char>) -> bool {
    &&& imp.source@ == s
    &&& imp.specifiers@.len() == 1
    &&& imp.specifiers@[0].local@ == r
    &&& imp.specifiers@[0].kind is Namespace
    &&& !imp.is_type_only
    &&& !imp.side_effect_only
    &&& !imp.from_reexport
}

/// What getting the namespace import of external module `s` does to the
/// entry state, returning `r`: the kept imports' namespace import of `s`
/// (recorded as the helper name of `s` unless one is), else a fresh helper
/// name (from the sanitized specifier) whose namespace import is added.
pub open spec fn external_ns_effect(st0: EntryState, st1: EntryState, reserved: Seq<Seq<char>>, s: Seq<char>, r: Seq<char>) -> bool {
    &&& st1.ns_wrapper_blocks == st0.ns_wrapper_blocks
    &&& st1.acc.exports == st0.acc.exports
    &&& st1.acc.star_exports == st0.acc.star_exports
    &&& st1.acc.has_any_export_statement == st0.acc.has_any_export_statement
    &&& match existing_ns_local(st0.acc.imports@, s) {
        Some(n) => {
            &&& r == n
            &&& st1.acc.imports@ == st0.acc.imports@
            &&& str_views(st1.warnings@) == str_views(st0.warnings@)
            &&& pair_views(st1.ns_name_map@) == match ns_lookup(pair_views(st0.ns_name_map@), s) {
                Some(_) => pair_views(st0.ns_name_map@),
                None => pair_views(st0.ns_name_map@).push((s, n)),
            }
        },
        None => {
            &&& ns_name_step(
                pair_views(st0.ns_name_map@),
                str_views(st0.warnings@),
                reserved,
                s,
                s.map_values(|c: char| sanitized_char(c)),
                r,
                pair_views(st1.ns_name_map@),
                str_views(st1.warnings@),
            )
            &&& st1.acc.imports@.len() == st0.acc.imports@.len() + 1
            &&& st1.acc.imports@.take(st0.acc.imports@.len() as int) == st0.acc.imports@
            &&& is_new_ns_import(st1.acc.imports@.last(), s, r)
        },
    }
}

/// The namespace import of external module `specifier`: the one the kept
/// imports have (recorded as the specifier's helper name unless one is
/// recorded), else a new helper namespace import named after the
/// sanitized specifier.
pub fn ensure_external_namespace_import(
    specifier: &str,
    helper_reserved: &Vec<String>,
    state: &mut EntryState,
) -> (r: String)
    requires
        old(state).ns_name_map@.len() + helper_reserved@.len() + 1 < i32::MAX,
    ensures
        external_ns_effect(*old(state), *final(state), str_views(helper_reserved@), specifier@, r@),
{
    match existing_namespace_import(&state.acc.imports, specifier) {
        Some(name) => {
            match lookup_ns_name(&state.ns_name_map, specifier) {
                Some(_) => {},
                None => {
                    let ghost m0 = state.ns_name_map@;
                    state.ns_name_map.push((string_clone(specifier), string_clone(name.as_str())));
                    assert(pair_views(state.ns_name_map@) =~= pair_views(m0).push((specifier@, name@)));
                },
            }
            name
        },
        None => {
            let base = sanitize_to_identifier(specifier);
            let name = get_or_create_ns_name(
                specifier,
                &mut state.ns_name_map,
                helper_reserved,
                &mut state.warnings,
                base.as_str(),
            );
            let mut specs: Vec<ImportSpecifier> = Vec::new();
            specs.push(ImportSpecifier { local: string_clone(name.as_str()), kind: ImportSpecifierKind::Namespace });
            let ghost i0 = state.acc.imports@;
            state.acc.imports.push(
                ExternalImport {
                    source: string_clone(specifier),
                    specifiers: specs,
                    is_type_only: false,
                    side_effect_only: false,
                    from_reexport: false,
                },
            );
            assert(state.acc.imports@.take(i0.len() as int) =~= i0);
            name
        },
    }
}

/// The stem of the file name of `path` (empty when it has none).
pub open spec fn path_stem(path: Seq<char>) -> Seq<char> {
    match file_name(path) {
        Some(n) => name_stem(n),
        None => Seq::empty(),
    }
}

/// The base of the helper name of `typeof import(specifier)` in module
/// `module_idx`: the sanitized stem of the target module's file (the
/// sanitized specifier when it is not internal), then `_exports`.
pub open spec fn typeof_base(table: ModuleTable, module_idx: int, specifier: Seq<char>) -> Seq<char> {
    let stem = match resolve_internal(table.modules@[module_idx], specifier) {
        Some(t) => path_stem(table.modules@[t as int].path@),
        None => specifier,
    };
    stem.map_values(|c: char| sanitized_char(c)) + "_exports"@
}

/// `declare namespace NAME {`.
pub open spec fn namespace_head(name: Seq<char>) -> Seq<char> {
    "declare namespace "@ + name + " {"@
}

/// Inserting `x` into the sorted `s` before the first element not below it.
pub open spec fn insert_sorted(s: Seq<Seq<char>>, x: Seq<char>) -> Seq<Seq<char>>
    decreases s.len(),
{
    if s.len() == 0 {
        seq![x]
    } else if seq_lt(s[0], x) {
        seq![s[0]] + insert_sorted(s.drop_first(), x)
    } else {
        seq![x] + s
    }
}

/// `s` sorted by inserting each element in turn.
pub open spec fn sort_names(s: Seq<Seq<char>>) -> Seq<Seq<char>>
    decreases s.len(),
{
    if s.len() == 0 {
        s
    } else {
        insert_sorted(sort_names(s.drop_last()), s.last())
    }
}

proof fn lemma_insert_sorted_at(s: Seq<Seq<char>>, x: Seq<char>, p: int)
    requires
        0 <= p <= s.len(),
        forall|k: int| 0 <= k < p ==> seq_lt(#[trigger] s[k], x),
        p < s.len() ==> !seq_lt(s[p], x),
    ensures
        insert_sorted(s, x) == s.insert(p, x),
    decreases s.len(),
{
    if s.len() == 0 {
        assert(s.insert(p, x) =~= seq![x]);
    } else if p == 0 {
        assert(s.insert(0, x) =~= seq![x] + s);
    } else {
        let d = s.drop_first();
        assert forall|k: int| 0 <= k < p - 1 implies seq_lt(#[trigger] d[k], x) by {
            assert(d[k] == s[k + 1]);
        }
        lemma_insert_sorted_at(d, x, p - 1);
        assert(seq![s[0]] + d.insert(p - 1, x) =~= s.insert(p, x));
    }
}

/// Each name is below the next.
pub open spec fn strictly_sorted_names(s: Seq<Seq<char>>) -> bool {
    forall|i: int, j: int| 0 <= i < j < s.len() ==> seq_lt(#[trigger] s[i], #[trigger] s[j])
}

proof fn lemma_insert_sorted_sorted(s: Seq<Seq<char>>, x: Seq<char>)
    requires
        strictly_sorted_names(s),
        !s.contains(x),
    ensures
        strictly_sorted_names(insert_sorted(s, x)),
        insert_sorted(s, x).to_set() == s.to_set().insert(x),
        insert_sorted(s, x).len() == s.len() + 1,
    decreases s.len(),
{
    let r = insert_sorted(s, x);
    if s.len() == 0 {
        assert(r =~= seq![x]);
        assert(r.to_set() =~= s.to_set().insert(x)) by {
            assert forall|y: Seq<char>| r.to_set().contains(y) <==> s.to_set().insert(x).contains(y) by {
                if r.to_set().contains(y) {
                    let k = choose|k: int| 0 <= k < r.len() && r[k] == y;
                    assert(k == 0);
                }
                if y == x {
                    assert(r[0] == x);
                }
            }
        }
    } else if seq_lt(s[0], x) {
        let d = s.drop_first();
        assert(strictly_sorted_names(d)) by {
            assert forall|i: int, j: int| 0 <= i < j < d.len() implies seq_lt(#[trigger] d[i], #[trigger] d[j]) by {
                assert(d[i] == s[i + 1] && d[j] == s[j + 1]);
            }
        }
        assert(!d.contains(x)) by {
            if d.contains(x) {
                let k = choose|k: int| 0 <= k < d.len() && d[k] == x;
                assert(s[k + 1] == x);
            }
        }
        lemma_insert_sorted_sorted(d, x);
        let rd = insert_sorted(d, x);
        assert(r == seq![s[0]] + rd);
        assert forall|i: int, j: int| 0 <= i < j < r.len() implies seq_lt(#[trigger] r[i], #[trigger] r[j]) by {
            if i == 0 {
                assert(r[j] == rd[j - 1]);
                assert(rd.to_set().contains(rd[j - 1]));
                assert(s.to_set().insert(x).contains(rd[j - 1]) == d.to_set().insert(x).contains(rd[j - 1]));
                if rd[j - 1] == x {
                } else {
                    assert(d.to_set().contains(rd[j - 1]));
                    let k = choose|k: int| 0 <= k < d.len() && d[k] == rd[j - 1];
                    assert(s[k + 1] == d[k]);
                    assert(seq_lt(s[0], s[k + 1]));
                }
            } else {
                assert(r[i] == rd[i - 1] && r[j] == rd[j - 1]);
            }
        }
        assert(r.to_set() =~= s.to_set().insert(x)) by {
            assert forall|y: Seq<char>| r.to_set().contains(y) <==> s.to_set().insert(x).contains(y) by {
                if r.to_set().contains(y) {
                    let k = choose|k: int| 0 <= k < r.len() && r[k] == y;
                    if k > 0 {
                        assert(rd[k - 1] == y);
                        assert(rd.to_set().contains(y));
                        if y != x {
                            assert(d.to_set().contains(y));
                            let q = choose|q: int| 0 <= q < d.len() && d[q] == y;
                            assert(s[q + 1] == y);
                        }
                    } else {
                        assert(s[0] == y);
                    }
                }
                if s.to_set().insert(x).contains(y) {
                    if y == x {
                        assert(rd.to_set().contains(x));
                        let q = choose|q: int| 0 <= q < rd.len() && rd[q] == x;
                        assert(r[q + 1] == x);
                    } else {
                        let q = choose|q: int| 0 <= q < s.len() && s[q] == y;
                        if q == 0 {
                            assert(r[0] == y);
                        } else {
                            assert(d[q - 1] == y);
                            assert(rd.to_set().contains(y));
                            let w = choose|w: int| 0 <= w < rd.len() && rd[w] == y;
                            assert(r[w + 1] == y);
                        }
                    }
                }
            }
        }
    } else {
        assert(r == seq![x] + s);
        assert(x != s[0]);
        lemma_seq_lt_total(x, s[0]);
        assert forall|i: int, j: int| 0 <= i < j < r.len() implies seq_lt(#[trigger] r[i], #[trigger] r[j]) by {
            if i == 0 {
                assert(r[j] == s[j - 1]);
                if j - 1 > 0 {
                    assert(seq_lt(s[0], s[j - 1]));
                    lemma_seq_lt_trans(x, s[0], s[j - 1]);
                }
            } else {
                assert(r[i] == s[i - 1] && r[j] == s[j - 1]);
            }
        }
        assert(r.to_set() =~= s.to_set().insert(x)) by {
            assert forall|y: Seq<char>| r.to_set().contains(y) <==> s.to_set().insert(x).contains(y) by {
                if r.to_set().contains(y) {
                    let k = choose|k: int| 0 <= k < r.len() && r[k] == y;
                    if k > 0 {
                        assert(s[k - 1] == y);
                    }
                }
                if s.to_set().insert(x).contains(y) {
                    if y == x {
                        assert(r[0] == y);
                    } else {
                        let q = choose|q: int| 0 <= q < s.len() && s[q] == y;
                        assert(r[q + 1] == y);
                    }
                }
            }
        }
    }
}

/// Sorting names without duplicates gives them in strictly increasing order.
pub proof fn lemma_sort_names_sorted(s: Seq<Seq<char>>)
    requires
        s.no_duplicates(),
    ensures
        strictly_sorted_names(sort_names(s)),
        sort_names(s).to_set() == s.to_set(),
        sort_names(s).len() == s.len(),
    decreases s.len(),
{
    if s.len() == 0 {
        assert(s.to_set() =~= Set::<Seq<char>>::empty());
        assert(sort_names(s).to_set() =~= Set::<Seq<char>>::empty());
    } else {
        let d = s.drop_last();
        assert(d.no_duplicates()) by {
            assert forall|i: int, j: int| 0 <= i < j < d.len() implies d[i] != d[j] by {
                assert(d[i] == s[i] && d[j] == s[j]);
            }
        }
        lemma_sort_names_sorted(d);
        assert(!d.contains(s.last())) by {
            if d.contains(s.last()) {
                let k = choose|k: int| 0 <= k < d.len() && d[k] == s.last();
                assert(s[k] == s[s.len() - 1]);
            }
        }
        assert(!sort_names(d).contains(s.last())) by {
            if sort_names(d).contains(s.last()) {
                assert(sort_names(d).to_set().contains(s.last()));
            }
        }
        lemma_insert_sorted_sorted(sort_names(d), s.last());
        assert(s.to_set() =~= d.to_set().insert(s.last())) by {
            assert(s =~= d.push(s.last()));
        }
    }
}

/// `v` sorted by inserting each element in turn.
fn sort_strings(v: Vec<String>) -> (r: Vec<String>)
    ensures
        str_views(r@) == sort_names(str_views(v@)),
{
    let mut out: Vec<String> = Vec::new();
    let mut i: usize = 0;
    while i < v.len()
        invariant
            0 <= i <= v@.len(),
            str_views(out@) == sort_names(str_views(v@).take(i as int)),
        decreases v@.len() - i,
    {
        let x = &v[i];
        let mut p: usize = 0;
        while p < out.len() && str_lt(out[p].as_str(), x.as_str())
            invariant
                0 <= p <= out@.len(),
                forall|k: int| 0 <= k < p ==> seq_lt(#[trigger] str_views(out@)[k], x@),
            decreases out@.len() - p,
        {
            p += 1;
        }
        let ghost o0 = str_views(out@);
        proof {
            lemma_insert_sorted_at(o0, x@, p as int);
            let tk = str_views(v@).take(i + 1);
            assert(tk.drop_last() =~= str_views(v@).take(i as int));
        }
        out.insert(p, string_clone(x.as_str()));
        assert(str_views(out@) =~= o0.insert(p as int, x@));
        i += 1;
    }
    assert(str_views(v@).take(i as int) =~= str_views(v@));
    out
}

/// The `declare namespace` block listing `names` as exports.
pub open spec fn names_block(name: Seq<char>, names: Seq<Seq<char>>) -> Seq<char> {
    wrapper_block(name, names.map_values(|n: Seq<char>| (n, n, false)))
}

/// What getting the namespace of `typeof import(s)` in module `module_idx`
/// does to the entry state, returning `r`: a helper name (from the sanitized
/// file stem of the target module), whose `declare namespace` block, listing
/// the target's exports in sorted order, is added once (not when there is
/// none to list or `s` is not internal).
pub open spec fn typeof_ns_effect(
    st0: EntryState,
    st1: EntryState,
    table: ModuleTable,
    module_idx: int,
    reserved: Seq<Seq<char>>,
    s: Seq<char>,
    r: Seq<char>,
) -> bool {
    &&& st1.acc == st0.acc
    &&& ns_name_step(
        pair_views(st0.ns_name_map@),
        str_views(st0.warnings@),
        reserved,
        s,
        typeof_base(table, module_idx, s),
        r,
        pair_views(st1.ns_name_map@),
        str_views(st1.warnings@),
    )
    &&& if find_from(st0.ns_wrapper_blocks@, namespace_head(r), 0) is Some {
        st1.ns_wrapper_blocks@ == st0.ns_wrapper_blocks@
    } else {
        match resolve_internal(table.modules@[module_idx], s) {
            Some(t) => exists|ns: Seq<Seq<char>>|
                {
                    &&& strictly_sorted_names(ns)
                    &&& ns.to_set() == all_exported_names(table.modules@[t as int])
                    &&& st1.ns_wrapper_blocks@ == if ns.len() == 0 {
                        st0.ns_wrapper_blocks@
                    } else {
                        st0.ns_wrapper_blocks@ + names_block(r, ns)
                    }
                },
            None => st1.ns_wrapper_blocks@ == st0.ns_wrapper_blocks@,
        }
    }
}

/// The namespace `typeof import(specifier)` stands for in module
/// `module_idx`: a helper name (from the sanitized file stem of the target
/// module), whose `declare namespace` block, listing the target's exports
/// in sorted order, is added once (not when there is none to list or the
/// specifier is not internal).
pub fn ensure_internal_typeof_namespace(
    table: &ModuleTable,
    module_idx: ModuleIdx,
    specifier: &str,
    helper_reserved: &Vec<String>,
    state: &mut EntryState,
) -> (r: String)
    requires
        table.wf(),
        module_idx < table.modules@.len(),
        old(state).ns_name_map@.len() + helper_reserved@.len() + 1 < i32::MAX,
    ensures
        typeof_ns_effect(*old(state), *final(state), *table, module_idx as int, str_views(helper_reserved@), specifier@, r@),
{
    let module = &table.modules[module_idx];
    let target = module.resolve_internal_specifier(specifier);
    let mut base = match target {
        Some(t) => {
            proof {
                crate::needed_names::lemma_internal_below(table, module_idx, specifier@);
            }
            let stem: Vec<char> = match path_file_name(table.modules[t].path.as_str()) {
                Some(n) => name_stem_of(&str_chars(n.as_str())),
                None => Vec::new(),
            };
            let stem_text = crate::text::string_from_chars(&stem);
            sanitize_to_identifier(stem_text.as_str())
        },
        None => sanitize_to_identifier(specifier),
    };
    push_str(&mut base, "_exports");
    proof {
        reveal_strlit("_exports");
    }
    let name = get_or_create_ns_name(
        specifier,
        &mut state.ns_name_map,
        helper_reserved,
        &mut state.warnings,
        base.as_str(),
    );
    let mut head = "declare namespace ".to_string();
    push_str(&mut head, name.as_str());
    push_str(&mut head, " {");
    proof {
        reveal_strlit("declare namespace ");
        reveal_strlit(" {");
        assert(head@ =~= namespace_head(name@));
    }
    let blocks = str_chars(state.ns_wrapper_blocks.as_str());
    let head_chars = str_chars(head.as_str());
    if find_chars(&blocks, &head_chars, 0).is_some() {
        return name;
    }
    match target {
        Some(t) => {
            proof {
                crate::needed_names::lemma_internal_below(table, module_idx, specifier@);
            }
            let all = collect_all_exported_names(t, table);
            let names = sort_strings(all);
            proof {
                lemma_sort_names_sorted(str_views(all@));
            }
            if names.len() > 0 {
                let mut export_names: Vec<ExportedName> = Vec::new();
                let mut i: usize = 0;
                while i < names.len()
                    invariant
                        0 <= i <= names@.len(),
                        export_names@.map_values(|e: ExportedName| e@) == str_views(names@).take(i as int).map_values(
                            |n: Seq<char>| (n, n, false),
                        ),
                    decreases names@.len() - i,
                {
                    let ghost eb = export_names@;
                    export_names.push(
                        ExportedName {
                            local: string_clone(names[i].as_str()),
                            exported: string_clone(names[i].as_str()),
                            is_type_only: false,
                        },
                    );
                    assert(export_names@.map_values(|e: ExportedName| e@) =~= eb.map_values(|e: ExportedName| e@).push(
                        (names@[i as int]@, names@[i as int]@, false),
                    ));
                    assert(str_views(names@).take(i + 1) =~= str_views(names@).take(i as int).push(names@[i as int]@));
                    assert(export_names@.map_values(|e: ExportedName| e@) =~= str_views(names@).take(i + 1).map_values(
                        |n: Seq<char>| (n, n, false),
                    ));
                    i += 1;
                }
                assert(str_views(names@).take(i as int) =~= str_views(names@));
                let wrap = NamespaceWrapInfo { namespace_name: string_clone(name.as_str()), export_names };
                let text = namespace_wrapper_text(&wrap);
                assert(wrap@.1 == str_views(names@).map_values(|n: Seq<char>| (n, n, false)));
                push_str(&mut state.ns_wrapper_blocks, text.as_str());
            }
        },
        None => {},
    }
    name
}

/// The names an `import(specifier)` type (with qualifier names
/// `qualifier`) in module `module_idx` stands for in the bundle, if it is
/// rewritten; `in_typeof` for `typeof import(..)`. An external module's
/// type goes through its namespace import; an internal one becomes its
/// qualifier (nothing when it has none, unless under `typeof`, where it
/// names the module's declared namespace).
pub fn import_type_names(
    table: &ModuleTable,
    helper_reserved: &Vec<String>,
    module_idx: ModuleIdx,
    specifier: &str,
    qualifier: &Vec<String>,
    in_typeof: bool,
    state: &mut EntryState,
) -> (r: Option<Vec<String>>)
    requires
        table.wf(),
        module_idx < table.modules@.len(),
        old(state).ns_name_map@.len() + helper_reserved@.len() + 1 < i32::MAX,
    ensures
        match resolve_internal(table.modules@[module_idx as int], specifier@) {
            Some(_) => if qualifier@.len() > 0 {
                &&& r is Some
                &&& str_views(r->0@) == str_views(qualifier@)
                &&& *final(state) == *old(state)
            } else if in_typeof {
                &&& r is Some
                &&& r->0@.len() == 1
                &&& typeof_ns_effect(*old(state), *final(state), *table, module_idx as int, str_views(helper_reserved@), specifier@, r->0@[0]@)
            } else {
                r is None && *final(state) == *old(state)
            },
            None => {
                &&& r is Some
                &&& r->0@.len() == qualifier@.len() + 1
                &&& str_views(r->0@).skip(1) == str_views(qualifier@)
                &&& external_ns_effect(*old(state), *final(state), str_views(helper_reserved@), specifier@, r->0@[0]@)
            },
        },
{
    let module = &table.modules[module_idx];
    match module.resolve_internal_specifier(specifier) {
        Some(_) => {
            if qualifier.len() > 0 {
                let mut out: Vec<String> = Vec::new();
                let mut i: usize = 0;
                while i < qualifier.len()
                    invariant
                        0 <= i <= qualifier@.len(),
                        str_views(out@) == str_views(qualifier@).take(i as int),
                    decreases qualifier@.len() - i,
                {
                    let ghost o0 = str_views(out@);
                    out.push(string_clone(qualifier[i].as_str()));
                    assert(str_views(out@) =~= o0.push(qualifier@[i as int]@));
                    assert(str_views(out@) =~= str_views(qualifier@).take(i + 1));
                    i += 1;
                }
                assert(str_views(qualifier@).take(i as int) =~= str_views(qualifier@));
                Some(out)
            } else if in_typeof {
                let name = ensure_internal_typeof_namespace(table, module_idx, specifier, helper_reserved, state);
                let mut out: Vec<String> = Vec::new();
                out.push(name);
                Some(out)
            } else {
                None
            }
        },
        None => {
            let ns = ensure_external_namespace_import(specifier, helper_reserved, state);
            let ghost nsv = ns@;
            let mut out: Vec<String> = Vec::new();
            out.push(ns);
            let mut i: usize = 0;
            while i < qualifier.len()
                invariant
                    0 <= i <= qualifier@.len(),
                    out@.len() == i + 1,
                    out@[0]@ == nsv,
                    str_views(out@).skip(1) == str_views(qualifier@).take(i as int),
                decreases qualifier@.len() - i,
            {
                let ghost o0 = str_views(out@);
                out.push(string_clone(qualifier[i].as_str()));
                assert(str_views(out@).skip(1) =~= o0.skip(1).push(qualifier@[i as int]@));
                assert(str_views(qualifier@).take(i + 1) =~= str_views(qualifier@).take(i as int).push(qualifier@[i as int]@));
                i += 1;
            }
            assert(str_views(qualifier@).take(i as int) =~= str_views(qualifier@));
            Some(out)
        },
    }
}

} // verus!
