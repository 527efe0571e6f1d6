//! Name deconfliction: builds a rename plan for declarations that collide
//! across bundled modules.

use vstd::prelude::*;

use crate::flags::{NAMING_MASK, symbol_participates_in_naming};
use crate::model::{
    ExportSource, Module, ModuleIdx, ModuleTable, StatementKind, StatementSummary, SymbolId, SymbolRef,
    assoc_get, assoc_find, flags_of, resolve_internal, root_binding_of,
};
use crate::paths::{d_exports_suffix, exports_suffix, helper_stem, synthetic_helper_names, underscore_separators};
use crate::text::{push_str, str_eq, string_clone};

verus! {

/// The decimal digit `d` (for `d < 10`).
pub open spec fn digit_char(d: nat) -> char {
    if d == 0 {
        '0'
    } else if d == 1 {
        '1'
    } else if d == 2 {
        '2'
    } else if d == 3 {
        '3'
    } else if d == 4 {
        '4'
    } else if d == 5 {
        '5'
    } else if d == 6 {
        '6'
    } else if d == 7 {
        '7'
    } else if d == 8 {
        '8'
    } else {
        '9'
    }
}

/// The decimal notation of `n`.
pub open spec fn decimal(n: nat) -> Seq<char>
    decreases n,
{
    if n < 10 {
        seq![digit_char(n)]
    } else {
        decimal(n / 10).push(digit_char(n % 10))
    }
}

/// `base$k`: the `k`-th alternative of a name.
pub open spec fn suffixed(base: Seq<char>, k: nat) -> Seq<char> {
    base + seq!['$'] + decimal(k)
}

/// A decimal notation has at least one digit, and two from 10 on.
pub proof fn lemma_decimal_len(n: nat)
    ensures
        decimal(n).len() >= 1,
        n >= 10 ==> decimal(n).len() >= 2,
    decreases n,
{
    if n >= 10 {
        lemma_decimal_len(n / 10);
    }
}

/// Different numbers have different decimal notations.
pub proof fn lemma_decimal_injective(a: nat, b: nat)
    requires
        decimal(a) == decimal(b),
    ensures
        a == b,
    decreases a,
{
    lemma_decimal_len(a);
    lemma_decimal_len(b);
    if a >= 10 && b >= 10 {
        assert(decimal(a).last() == digit_char(a % 10));
        assert(decimal(b).last() == digit_char(b % 10));
        assert(decimal(a).drop_last() =~= decimal(a / 10));
        assert(decimal(b).drop_last() =~= decimal(b / 10));
        lemma_decimal_injective(a / 10, b / 10);
        assert(a % 10 == b % 10);
        assert(a == 10 * (a / 10) + a % 10);
        assert(b == 10 * (b / 10) + b % 10);
    } else if a < 10 && b < 10 {
        assert(decimal(a)[0] == digit_char(a));
        assert(decimal(b)[0] == digit_char(b));
    }
}

/// Different suffixes give different alternatives.
proof fn lemma_suffixed_injective(base: Seq<char>, a: nat, b: nat)
    requires
        suffixed(base, a) == suffixed(base, b),
    ensures
        a == b,
{
    assert(suffixed(base, a).skip(base.len() + 1int) =~= decimal(a));
    assert(suffixed(base, b).skip(base.len() + 1int) =~= decimal(b));
    lemma_decimal_injective(a, b);
}

/// The decimal notation of `n`.
pub fn decimal_string(n: u32) -> (r: String)
    ensures
        r@ == decimal(n as nat),
    decreases n,
{
    let mut r = if n < 10 {
        String::new()
    } else {
        decimal_string(n / 10)
    };
    let d = n % 10;
    let c = if d == 0 {
        '0'
    } else if d == 1 {
        '1'
    } else if d == 2 {
        '2'
    } else if d == 3 {
        '3'
    } else if d == 4 {
        '4'
    } else if d == 5 {
        '5'
    } else if d == 6 {
        '6'
    } else if d == 7 {
        '7'
    } else if d == 8 {
        '8'
    } else {
        '9'
    };
    crate::text::string_push(&mut r, c);
    proof {
        if n < 10 {
            assert(n % 10 == n);
            assert(r@ =~= seq![digit_char(n as nat)]);
        }
    }
    r
}

/// Whether `names` holds `n`.
pub fn contains_name(names: &Vec<String>, n: &str) -> (r: bool)
    ensures
        r == names@.map_values(|s: String| s@).contains(n@),
{
    let ghost views = names@.map_values(|s: String| s@);
    let mut i: usize = 0;
    while i < names.len()
        invariant
            0 <= i <= names@.len(),
            views == names@.map_values(|s: String| s@),
            forall|j: int| 0 <= j < i ==> views[j] != n@,
        decreases names@.len() - i,
    {
        if str_eq(names[i].as_str(), n) {
            assert(views[i as int] == n@);
            return true;
        }
        i += 1;
    }
    false
}

/// The views of a list of names.
pub open spec fn str_views(v: Seq<String>) -> Seq<Seq<char>> {
    v.map_values(|s: String| s@)
}

/// A name that is neither used nor bound in a nested scope of the module.
pub open spec fn name_free(used: Seq<Seq<char>>, nested: Seq<Seq<char>>, c: Seq<char>) -> bool {
    !used.contains(c) && !nested.contains(c)
}

/// What `allocate_name` chooses for `base`: `base` itself when it is not used
/// yet, else `base$k` for the least `k >= 1` such that `base$k` is neither
/// used nor bound in a nested scope of the module.
pub open spec fn allocation_ok(base: Seq<char>, used: Seq<Seq<char>>, nested: Seq<Seq<char>>, r: Seq<char>) -> bool {
    if !used.contains(base) {
        r == base
    } else {
        exists|k: nat|
            k >= 1 && r == suffixed(base, k) && name_free(used, nested, r) && forall|j: nat|
                1 <= j < k ==> !name_free(used, nested, #[trigger] suffixed(base, j))
    }
}

/// Among `base$1 .. base$n`, with `n` one more than the names excluded, one
/// is free.
proof fn lemma_some_alternative_free(base: Seq<char>, used: Seq<Seq<char>>, nested: Seq<Seq<char>>, n: nat)
    requires
        n == used.len() + nested.len() + 1,
    ensures
        exists|k: nat| 1 <= k <= n && name_free(used, nested, #[trigger] suffixed(base, k)),
{
    if forall|k: nat| 1 <= k <= n ==> !name_free(used, nested, #[trigger] suffixed(base, k)) {
        let cands = Seq::new(n, |i: int| suffixed(base, (i + 1) as nat));
        let pool = used + nested;
        assert forall|i: int, j: int| 0 <= i < cands.len() && 0 <= j < cands.len() && i != j implies cands[i]
            != cands[j] by {
            if cands[i] == cands[j] {
                lemma_suffixed_injective(base, (i + 1) as nat, (j + 1) as nat);
            }
        }
        assert(cands.no_duplicates());
        cands.unique_seq_to_set();
        assert forall|c: Seq<char>| cands.to_set().contains(c) implies pool.to_set().contains(c) by {
            let i = choose|i: int| 0 <= i < cands.len() && cands[i] == c;
            let k = (i + 1) as nat;
            assert(c == suffixed(base, k));
            assert(!name_free(used, nested, suffixed(base, k)));
            if used.contains(c) {
                let j = choose|j: int| 0 <= j < used.len() && used[j] == c;
                assert(pool[j] == c);
            } else {
                let j = choose|j: int| 0 <= j < nested.len() && nested[j] == c;
                assert(pool[used.len() + j] == c);
            }
        }
        pool.lemma_cardinality_of_set();
        vstd::set_lib::lemma_len_subset(cands.to_set(), pool.to_set());
        assert(false);
    }
}

/// Chooses a name for a declaration called `base`: `base` if no declaration
/// has taken it yet, else the first `base$1`, `base$2`, ... that is neither
/// taken nor bound in a nested scope of the declaring module. The chosen name
/// is added to `used`.
pub fn allocate_name(base: &str, used: &mut Vec<String>, nested: &Vec<String>) -> (r: String)
    requires
        old(used)@.len() + nested@.len() + 1 < u32::MAX,
    ensures
        allocation_ok(base@, str_views(old(used)@), str_views(nested@), r@),
        str_views(final(used)@) == str_views(old(used)@).push(r@),
        !str_views(old(used)@).contains(r@),
{
    let ghost uv = str_views(used@);
    let ghost nv = str_views(nested@);
    if !contains_name(used, base) {
        let ghost old_used = used@;
        let r = string_clone(base);
        used.push(string_clone(base));
        assert(str_views(used@) =~= str_views(old_used).push(r@));
        return r;
    }
    let bound: u32 = (used.len() + nested.len() + 1) as u32;
    proof {
        lemma_some_alternative_free(base@, uv, nv, bound as nat);
    }
    let mut k: u32 = 1;
    loop
        invariant
            1 <= k <= bound,
            bound as nat == uv.len() + nv.len() + 1,
            uv == str_views(used@),
            used@ == old(used)@,
            nv == str_views(nested@),
            uv.contains(base@),
            exists|m: nat| k <= m <= bound && name_free(uv, nv, #[trigger] suffixed(base@, m)),
            forall|j: nat| 1 <= j < k ==> !name_free(uv, nv, #[trigger] suffixed(base@, j)),
        decreases bound - k,
    {
        let mut cand = string_clone(base);
        push_str(&mut cand, "$");
        let digits = decimal_string(k);
        push_str(&mut cand, digits.as_str());
        proof {
            reveal_strlit("$");
            assert(cand@ =~= suffixed(base@, k as nat));
        }
        if !contains_name(used, cand.as_str()) && !contains_name(nested, cand.as_str()) {
            let ghost old_used = used@;
            used.push(string_clone(cand.as_str()));
            assert(str_views(used@) =~= str_views(old_used).push(cand@));
            proof {
                assert(allocation_ok(base@, uv, nv, cand@)) by {
                    assert(name_free(uv, nv, suffixed(base@, k as nat)));
                }
            }
            return cand;
        }
        assert(!name_free(uv, nv, suffixed(base@, k as nat)));
        k += 1;
    }
}

/// `s` with `x` appended unless it holds `x` already.
pub open spec fn push_new(s: Seq<Seq<char>>, x: Seq<char>) -> Seq<Seq<char>> {
    if s.contains(x) { s } else { s.push(x) }
}

/// The names of `s` without repetitions, each at its first place.
pub open spec fn dedup_names(s: Seq<Seq<char>>) -> Seq<Seq<char>>
    decreases s.len(),
{
    if s.len() == 0 {
        Seq::empty()
    } else {
        push_new(dedup_names(s.drop_last()), s.last())
    }
}

/// The names of `s` that `ex` does not hold, in order.
pub open spec fn remove_names(s: Seq<Seq<char>>, ex: Seq<Seq<char>>) -> Seq<Seq<char>>
    decreases s.len(),
{
    if s.len() == 0 {
        Seq::empty()
    } else {
        let prev = remove_names(s.drop_last(), ex);
        if ex.contains(s.last()) { prev } else { prev.push(s.last()) }
    }
}

/// The local name of a default export that is a declaration.
pub open spec fn default_decl_name(m: Module) -> Option<Seq<char>> {
    match assoc_get(m.export_import_info.named_exports@, "default"@) {
        Some(e) => if e.source is Default { Some(e.local_name@) } else { None },
        None => None,
    }
}

/// The names a module exports by declaration: `export <declaration>` names,
/// then the name of a default-exported declaration, without repetitions.
pub open spec fn exported_decl_names(m: Module) -> Seq<Seq<char>> {
    let base = dedup_names(str_views(m.export_import_info.declared_export_names@));
    match default_decl_name(m) {
        Some(n) => push_new(base, n),
        None => base,
    }
}

/// The names declared by the statements of `stmts` that are not exports.
pub open spec fn bare_statement_names(stmts: Seq<StatementSummary>) -> Seq<Seq<char>>
    decreases stmts.len(),
{
    if stmts.len() == 0 {
        Seq::empty()
    } else {
        let st = stmts.last();
        bare_statement_names(stmts.drop_last()) + if st.kind == StatementKind::ExportNamed || st.kind
            == StatementKind::ExportDefault {
            Seq::empty()
        } else {
            str_views(st.declared_names@)
        }
    }
}

/// The names a module declares without exporting them, without repetitions
/// and without the names it also exports.
pub open spec fn internal_decl_names(m: Module) -> Seq<Seq<char>> {
    remove_names(dedup_names(bare_statement_names(m.statements@)), exported_decl_names(m))
}

/// Appends `x` to `v` unless it holds it already.
fn push_name_once(v: &mut Vec<String>, x: &str)
    ensures
        str_views(final(v)@) == push_new(str_views(old(v)@), x@),
{
    if !contains_name(v, x) {
        let ghost before = v@;
        v.push(string_clone(x));
        assert(str_views(v@) =~= str_views(before).push(x@));
    }
}

/// Splits the declaration names of a module into exported and non-exported
/// ones (a name both exported and declared bare counts as exported).
pub fn classify_declaration_names(module: &Module) -> (r: (Vec<String>, Vec<String>))
    ensures
        str_views(r.0@) == exported_decl_names(*module),
        str_views(r.1@) == internal_decl_names(*module),
{
    let info = &module.export_import_info;
    let mut exported: Vec<String> = Vec::new();
    let mut i: usize = 0;
    let ghost decl = str_views(info.declared_export_names@);
    while i < info.declared_export_names.len()
        invariant
            0 <= i <= decl.len(),
            decl == str_views(info.declared_export_names@),
            str_views(exported@) == dedup_names(decl.take(i as int)),
        decreases decl.len() - i,
    {
        proof {
            let t = decl.take(i + 1);
            assert(t.drop_last() =~= decl.take(i as int));
            assert(t.last() == decl[i as int]);
        }
        push_name_once(&mut exported, info.declared_export_names[i].as_str());
        i += 1;
    }
    assert(decl.take(i as int) =~= decl);
    let default_key = "default";
    match assoc_find(&info.named_exports, default_key) {
        Some(entry) => {
            if let ExportSource::Default = entry.source {
                push_name_once(&mut exported, entry.local_name.as_str());
            }
        },
        None => {},
    }
    let mut bare: Vec<String> = Vec::new();
    let ghost stmts = module.statements@;
    let mut j: usize = 0;
    while j < module.statements.len()
        invariant
            0 <= j <= stmts.len(),
            stmts == module.statements@,
            str_views(bare@) == dedup_names(bare_statement_names(stmts.take(j as int))),
        decreases stmts.len() - j,
    {
        let st = &module.statements[j];
        proof {
            let t = stmts.take(j + 1);
            assert(t.drop_last() =~= stmts.take(j as int));
            assert(t.last() == *st);
        }
        let ghost prefix = bare_statement_names(stmts.take(j as int));
        if st.kind != StatementKind::ExportNamed && st.kind != StatementKind::ExportDefault {
            let ghost names = str_views(st.declared_names@);
            let mut k: usize = 0;
            while k < st.declared_names.len()
                invariant
                    0 <= k <= names.len(),
                    names == str_views(st.declared_names@),
                    str_views(bare@) == dedup_names(prefix + names.take(k as int)),
                decreases names.len() - k,
            {
                proof {
                    let t = prefix + names.take(k + 1);
                    assert(t.drop_last() =~= prefix + names.take(k as int));
                    assert(t.last() == names[k as int]);
                }
                push_name_once(&mut bare, st.declared_names[k].as_str());
                k += 1;
            }
            assert(prefix + names.take(k as int) =~= bare_statement_names(stmts.take(j + 1)));
        } else {
            assert(prefix =~= bare_statement_names(stmts.take(j + 1)));
        }
        j += 1;
    }
    assert(stmts.take(j as int) =~= stmts);
    let ghost bare_v = str_views(bare@);
    let ghost ex_v = str_views(exported@);
    let mut internal: Vec<String> = Vec::new();
    let mut q: usize = 0;
    while q < bare.len()
        invariant
            0 <= q <= bare_v.len(),
            bare_v == str_views(bare@),
            ex_v == str_views(exported@),
            str_views(internal@) == remove_names(bare_v.take(q as int), ex_v),
        decreases bare_v.len() - q,
    {
        proof {
            let t = bare_v.take(q + 1);
            assert(t.drop_last() =~= bare_v.take(q as int));
            assert(t.last() == bare_v[q as int]);
        }
        if !contains_name(&exported, bare[q].as_str()) {
            let ghost before = internal@;
            internal.push(string_clone(bare[q].as_str()));
            assert(str_views(internal@) =~= str_views(before).push(bare_v[q as int]));
        }
        q += 1;
    }
    assert(bare_v.take(q as int) =~= bare_v);
    (exported, internal)
}

/// A declaration name to register, bound to a root-scope symbol.
pub struct SymbolCandidate {
    pub module_idx: ModuleIdx,
    pub symbol_id: SymbolId,
    pub name: String,
}

impl View for SymbolCandidate {
    type V = (ModuleIdx, SymbolId, Seq<char>);

    open spec fn view(&self) -> (ModuleIdx, SymbolId, Seq<char>) {
        (self.module_idx, self.symbol_id, self.name@)
    }
}

/// The views of a list of symbol candidates.
pub open spec fn candidate_views(v: Seq<SymbolCandidate>) -> Seq<(ModuleIdx, SymbolId, Seq<char>)> {
    v.map_values(|c: SymbolCandidate| c@)
}

/// The state of splitting names into symbol candidates and fallback names.
pub struct CandidateSplit {
    pub symbols: Seq<(ModuleIdx, SymbolId, Seq<char>)>,
    pub fallbacks: Seq<Seq<char>>,
    pub seen_symbols: Seq<SymbolId>,
}

/// One name of module `m`: a root-scope symbol seen for the first time
/// becomes a candidate when it lives in a naming space, else its name falls
/// back to name-based renaming; a name without a root symbol falls back too.
pub open spec fn split_step(st: CandidateSplit, m: Module, name: Seq<char>) -> CandidateSplit {
    match root_binding_of(m.scoping.root_bindings@, name) {
        Some(sym) => if st.seen_symbols.contains(sym) {
            st
        } else if flags_of(m.scoping.root_bindings@, sym) & NAMING_MASK != 0 {
            CandidateSplit {
                symbols: st.symbols.push((m.idx, sym, name)),
                fallbacks: st.fallbacks,
                seen_symbols: st.seen_symbols.push(sym),
            }
        } else {
            CandidateSplit {
                symbols: st.symbols,
                fallbacks: push_new(st.fallbacks, name),
                seen_symbols: st.seen_symbols.push(sym),
            }
        },
        None => CandidateSplit { symbols: st.symbols, fallbacks: push_new(st.fallbacks, name), seen_symbols: st.seen_symbols },
    }
}

/// The names `names` of module `m`, split in order.
pub open spec fn split_names(m: Module, names: Seq<Seq<char>>) -> CandidateSplit
    decreases names.len(),
{
    if names.len() == 0 {
        CandidateSplit { symbols: Seq::empty(), fallbacks: Seq::empty(), seen_symbols: Seq::empty() }
    } else {
        split_step(split_names(m, names.drop_last()), m, names.last())
    }
}

proof fn lemma_split_len(m: Module, names: Seq<Seq<char>>)
    ensures
        split_names(m, names).symbols.len() + split_names(m, names).fallbacks.len() <= names.len(),
    decreases names.len(),
{
    if names.len() > 0 {
        lemma_split_len(m, names.drop_last());
    }
}

/// Whether `v` holds the symbol `s`.
fn contains_symbol(v: &Vec<SymbolId>, s: SymbolId) -> (r: bool)
    ensures
        r == v@.contains(s),
{
    let mut i: usize = 0;
    while i < v.len()
        invariant
            0 <= i <= v@.len(),
            forall|j: int| 0 <= j < i ==> v@[j] != s,
        decreases v@.len() - i,
    {
        if v[i] == s {
            return true;
        }
        i += 1;
    }
    false
}

/// Splits the names of a module into symbol candidates and fallback names.
pub fn resolve_symbol_candidates(module: &Module, names: &Vec<String>) -> (r: (Vec<SymbolCandidate>, Vec<String>))
    ensures
        candidate_views(r.0@) == split_names(*module, str_views(names@)).symbols,
        str_views(r.1@) == split_names(*module, str_views(names@)).fallbacks,
{
    let ghost nv = str_views(names@);
    let mut symbols: Vec<SymbolCandidate> = Vec::new();
    let mut fallbacks: Vec<String> = Vec::new();
    let mut seen: Vec<SymbolId> = Vec::new();
    let mut i: usize = 0;
    while i < names.len()
        invariant
            0 <= i <= nv.len(),
            nv == str_views(names@),
            ({
                let st = split_names(*module, nv.take(i as int));
                &&& candidate_views(symbols@) == st.symbols
                &&& str_views(fallbacks@) == st.fallbacks
                &&& seen@ == st.seen_symbols
            }),
        decreases nv.len() - i,
    {
        let name = names[i].as_str();
        proof {
            let t = nv.take(i + 1);
            assert(t.drop_last() =~= nv.take(i as int));
            assert(t.last() == name@);
        }
        match module.scoping.get_root_binding(name) {
            Some(sym) => {
                if !contains_symbol(&seen, sym) {
                    seen.push(sym);
                    let flags = module.scoping.symbol_flags(sym);
                    if symbol_participates_in_naming(flags) {
                        let ghost before = symbols@;
                        symbols.push(SymbolCandidate { module_idx: module.idx, symbol_id: sym, name: string_clone(name) });
                        assert(candidate_views(symbols@) =~= candidate_views(before).push((module.idx, sym, name@)));
                    } else {
                        push_name_once(&mut fallbacks, name);
                    }
                }
            },
            None => {
                push_name_once(&mut fallbacks, name);
            },
        }
        i += 1;
    }
    assert(nv.take(i as int) =~= nv);
    (symbols, fallbacks)
}

/// The rename plan as the contracts see it: symbol renames, name-based
/// renames, and the names claimed in the output scope.
pub struct RenameState {
    pub symbols: Seq<(SymbolRef, Seq<char>)>,
    pub fallbacks: Seq<((ModuleIdx, Seq<char>), Seq<char>)>,
    pub used: Seq<Seq<char>>,
}

/// Canonical name mappings that resolve name conflicts across bundled
/// modules (e.g. `Foo` -> `Foo$1`).
pub struct CanonicalNames {
    /// Symbol-based renames.
    pub symbols: Vec<(SymbolRef, String)>,
    /// Name-based renames, for names without a symbol in a naming space.
    pub fallback_name_renames: Vec<((ModuleIdx, String), String)>,
    /// Names already claimed in the output scope.
    pub used_names: Vec<String>,
}

impl View for CanonicalNames {
    type V = RenameState;

    open spec fn view(&self) -> RenameState {
        RenameState {
            symbols: self.symbols@.map_values(|e: (SymbolRef, String)| (e.0, e.1@)),
            fallbacks: self.fallback_name_renames@.map_values(
                |e: ((ModuleIdx, String), String)| ((e.0.0, e.0.1@), e.1@),
            ),
            used: str_views(self.used_names@),
        }
    }
}

/// The first index at or after `i` of the entry keyed `k`.
pub open spec fn symbol_slot(s: Seq<(SymbolRef, Seq<char>)>, k: SymbolRef, i: int) -> int
    decreases s.len() - i,
{
    if i < 0 || i >= s.len() {
        s.len() as int
    } else if s[i].0 == k {
        i
    } else {
        symbol_slot(s, k, i + 1)
    }
}

/// `s` with the entry keyed `k` set to `v` (added at the end when absent).
pub open spec fn put_symbol(s: Seq<(SymbolRef, Seq<char>)>, k: SymbolRef, v: Seq<char>) -> Seq<(SymbolRef, Seq<char>)> {
    let i = symbol_slot(s, k, 0);
    if i < s.len() { s.update(i, (k, v)) } else { s.push((k, v)) }
}

/// The value of the entry keyed `k`.
pub open spec fn lookup_symbol(s: Seq<(SymbolRef, Seq<char>)>, k: SymbolRef) -> Option<Seq<char>> {
    let i = symbol_slot(s, k, 0);
    if i < s.len() { Some(s[i].1) } else { None }
}

/// The first index at or after `i` of the entry keyed `k`.
pub open spec fn fallback_slot(s: Seq<((ModuleIdx, Seq<char>), Seq<char>)>, k: (ModuleIdx, Seq<char>), i: int) -> int
    decreases s.len() - i,
{
    if i < 0 || i >= s.len() {
        s.len() as int
    } else if s[i].0 == k {
        i
    } else {
        fallback_slot(s, k, i + 1)
    }
}

/// `s` with the entry keyed `k` set to `v` (added at the end when absent).
pub open spec fn put_fallback(
    s: Seq<((ModuleIdx, Seq<char>), Seq<char>)>,
    k: (ModuleIdx, Seq<char>),
    v: Seq<char>,
) -> Seq<((ModuleIdx, Seq<char>), Seq<char>)> {
    let i = fallback_slot(s, k, 0);
    if i < s.len() { s.update(i, (k, v)) } else { s.push((k, v)) }
}

/// The value of the entry keyed `k`.
pub open spec fn lookup_fallback(s: Seq<((ModuleIdx, Seq<char>), Seq<char>)>, k: (ModuleIdx, Seq<char>)) -> Option<Seq<char>> {
    let i = fallback_slot(s, k, 0);
    if i < s.len() { Some(s[i].1) } else { None }
}

proof fn lemma_symbol_slot(s: Seq<(SymbolRef, Seq<char>)>, k: SymbolRef, i: int)
    requires
        0 <= i <= s.len(),
    ensures
        i <= symbol_slot(s, k, i) <= s.len(),
        symbol_slot(s, k, i) < s.len() ==> s[symbol_slot(s, k, i)].0 == k,
    decreases s.len() - i,
{
    if i < s.len() && s[i].0 != k {
        lemma_symbol_slot(s, k, i + 1);
    }
}

proof fn lemma_fallback_slot(s: Seq<((ModuleIdx, Seq<char>), Seq<char>)>, k: (ModuleIdx, Seq<char>), i: int)
    requires
        0 <= i <= s.len(),
    ensures
        i <= fallback_slot(s, k, i) <= s.len(),
        fallback_slot(s, k, i) < s.len() ==> s[fallback_slot(s, k, i)].0 == k,
    decreases s.len() - i,
{
    if i < s.len() && s[i].0 != k {
        lemma_fallback_slot(s, k, i + 1);
    }
}

/// The name `allocate_name` chooses.
pub open spec fn allocated(base: Seq<char>, used: Seq<Seq<char>>, nested: Seq<Seq<char>>) -> Seq<char> {
    choose|r: Seq<char>| allocation_ok(base, used, nested, r)
}

/// `allocation_ok` determines the name.
pub proof fn lemma_allocation_unique(base: Seq<char>, used: Seq<Seq<char>>, nested: Seq<Seq<char>>, r: Seq<char>)
    requires
        allocation_ok(base, used, nested, r),
    ensures
        allocated(base, used, nested) == r,
{
    let a = allocated(base, used, nested);
    assert(allocation_ok(base, used, nested, a));
    if used.contains(base) {
        let k1 = choose|k: nat| k >= 1 && r == suffixed(base, k) && name_free(used, nested, r) && forall|j: nat|
            1 <= j < k ==> !name_free(used, nested, #[trigger] suffixed(base, j));
        let k2 = choose|k: nat| k >= 1 && a == suffixed(base, k) && name_free(used, nested, a) && forall|j: nat|
            1 <= j < k ==> !name_free(used, nested, #[trigger] suffixed(base, j));
        if k1 < k2 {
            assert(!name_free(used, nested, suffixed(base, k1)));
        } else if k2 < k1 {
            assert(!name_free(used, nested, suffixed(base, k2)));
        }
    }
}

/// The names bound in nested scopes of module `mi`.
pub open spec fn nested_names(t: Seq<Module>, mi: ModuleIdx) -> Seq<Seq<char>> {
    str_views(t[mi as int].scoping.nested_binding_names@)
}

/// Registers one symbol candidate: it gets the name `allocate_name` chooses,
/// and a rename when that differs from its own.
pub open spec fn register_symbol(st: RenameState, t: Seq<Module>, c: (ModuleIdx, SymbolId, Seq<char>)) -> RenameState {
    let r = allocated(c.2, st.used, nested_names(t, c.0));
    RenameState {
        symbols: if r != c.2 { put_symbol(st.symbols, SymbolRef { owner: c.0, symbol: c.1 }, r) } else { st.symbols },
        fallbacks: st.fallbacks,
        used: st.used.push(r),
    }
}

/// Registers the symbol candidates `cs` in order.
pub open spec fn register_symbols(st: RenameState, t: Seq<Module>, cs: Seq<(ModuleIdx, SymbolId, Seq<char>)>) -> RenameState
    decreases cs.len(),
{
    if cs.len() == 0 {
        st
    } else {
        register_symbol(register_symbols(st, t, cs.drop_last()), t, cs.last())
    }
}

/// Registers one fallback name of module `mi`.
pub open spec fn register_fallback(st: RenameState, t: Seq<Module>, mi: ModuleIdx, name: Seq<char>) -> RenameState {
    let r = allocated(name, st.used, nested_names(t, mi));
    RenameState {
        symbols: st.symbols,
        fallbacks: if r != name { put_fallback(st.fallbacks, (mi, name), r) } else { st.fallbacks },
        used: st.used.push(r),
    }
}

/// Registers the fallback names `names` of module `mi` in order.
pub open spec fn register_fallbacks(st: RenameState, t: Seq<Module>, mi: ModuleIdx, names: Seq<Seq<char>>) -> RenameState
    decreases names.len(),
{
    if names.len() == 0 {
        st
    } else {
        register_fallback(register_fallbacks(st, t, mi, names.drop_last()), t, mi, names.last())
    }
}

impl CanonicalNames {
    /// The rename of a symbol, if it has one.
    pub fn resolve_symbol(&self, symbol_ref: SymbolRef) -> (r: Option<&str>)
        ensures
            match r {
                Some(v) => lookup_symbol(self@.symbols, symbol_ref) == Some(v@),
                None => lookup_symbol(self@.symbols, symbol_ref) is None,
            },
    {
        let ghost sv = self@.symbols;
        let mut i: usize = 0;
        while i < self.symbols.len()
            invariant
                0 <= i <= sv.len(),
                sv == self@.symbols,
                symbol_slot(sv, symbol_ref, 0) == symbol_slot(sv, symbol_ref, i as int),
            decreases sv.len() - i,
        {
            assert(sv[i as int].0 == self.symbols@[i as int].0);
            if self.symbols[i].0 == symbol_ref {
                return Some(self.symbols[i].1.as_str());
            }
            i += 1;
        }
        None
    }

    /// The rename of the root-scope name `name` of `module`: by its symbol,
    /// else by the name itself.
    pub fn resolve_name(&self, module: &Module, name: &str) -> (r: Option<&str>)
        ensures
            match r {
                Some(x) => resolve_name_spec(self@, *module, name@) == Some(x@),
                None => resolve_name_spec(self@, *module, name@) is None,
            },
    {
        if let Some(sym) = module.scoping.get_root_binding(name) {
            if let Some(v) = self.resolve_symbol(SymbolRef { owner: module.idx, symbol: sym }) {
                return Some(v);
            }
        }
        let ghost by_symbol = match root_binding_of(module.scoping.root_bindings@, name@) {
            Some(sym) => lookup_symbol(self@.symbols, SymbolRef { owner: module.idx, symbol: sym }),
            None => None,
        };
        assert(by_symbol is None);
        let ghost fv = self@.fallbacks;
        let mut i: usize = 0;
        while i < self.fallback_name_renames.len()
            invariant
                0 <= i <= fv.len(),
                fv == self@.fallbacks,
                by_symbol is None,
                by_symbol == match root_binding_of(module.scoping.root_bindings@, name@) {
                    Some(sym) => lookup_symbol(self@.symbols, SymbolRef { owner: module.idx, symbol: sym }),
                    None => None,
                },
                fallback_slot(fv, (module.idx, name@), 0) == fallback_slot(fv, (module.idx, name@), i as int),
            decreases fv.len() - i,
        {
            let e = &self.fallback_name_renames[i];
            assert(fv[i as int].0 == (e.0.0, e.0.1@));
            if e.0.0 == module.idx && str_eq(e.0.1.as_str(), name) {
                return Some(e.1.as_str());
            }
            i += 1;
        }
        None
    }

    /// The symbol renames of one module, in plan order.
    pub fn module_symbol_renames(&self, module_idx: ModuleIdx) -> (r: Vec<(SymbolId, String)>)
        ensures
            r@.map_values(|e: (SymbolId, String)| (e.0, e.1@)) == module_renames(self@.symbols, module_idx),
    {
        let ghost sv = self@.symbols;
        let mut r: Vec<(SymbolId, String)> = Vec::new();
        let mut i: usize = 0;
        while i < self.symbols.len()
            invariant
                0 <= i <= sv.len(),
                sv == self@.symbols,
                r@.map_values(|e: (SymbolId, String)| (e.0, e.1@)) == module_renames(sv.take(i as int), module_idx),
            decreases sv.len() - i,
        {
            proof {
                let t = sv.take(i + 1);
                assert(t.drop_last() =~= sv.take(i as int));
                assert(t.last() == sv[i as int]);
            }
            let e = &self.symbols[i];
            if e.0.owner == module_idx {
                let ghost before = r@;
                r.push((e.0.symbol, string_clone(e.1.as_str())));
                assert(r@.map_values(|e: (SymbolId, String)| (e.0, e.1@)) =~= before.map_values(
                    |e: (SymbolId, String)| (e.0, e.1@),
                ).push((sv[i as int].0.symbol, sv[i as int].1)));
            }
            i += 1;
        }
        assert(sv.take(i as int) =~= sv);
        r
    }

    /// Sets the rename of a symbol.
    pub fn insert_symbol_rename(&mut self, module_idx: ModuleIdx, symbol_id: SymbolId, new_name: String)
        ensures
            final(self)@ == (RenameState {
                symbols: put_symbol(old(self)@.symbols, SymbolRef { owner: module_idx, symbol: symbol_id }, new_name@),
                fallbacks: old(self)@.fallbacks,
                used: old(self)@.used,
            }),
    {
        let k = SymbolRef { owner: module_idx, symbol: symbol_id };
        let ghost sv = self@.symbols;
        let mut i: usize = 0;
        while i < self.symbols.len()
            invariant
                0 <= i <= sv.len(),
                sv == self@.symbols,
                symbol_slot(sv, k, 0) == symbol_slot(sv, k, i as int),
            ensures
                0 <= i <= sv.len(),
                symbol_slot(sv, k, 0) == symbol_slot(sv, k, i as int),
                i < sv.len() ==> sv[i as int].0 == k,
            decreases sv.len() - i,
        {
            assert(sv[i as int].0 == self.symbols@[i as int].0);
            if self.symbols[i].0 == k {
                break;
            }
            i += 1;
        }
        proof { lemma_symbol_slot(sv, k, i as int); }
        let ghost old_symbols = self.symbols@;
        if i < self.symbols.len() {
            self.symbols.set(i, (k, new_name));
            assert(self@.symbols =~= sv.update(i as int, (k, new_name@)));
        } else {
            self.symbols.push((k, new_name));
            assert(self@.symbols =~= sv.push((k, new_name@)));
        }
    }

    /// Sets the name-based rename of `name` in module `module_idx`.
    pub fn insert_fallback_rename(&mut self, module_idx: ModuleIdx, name: &str, new_name: String)
        ensures
            final(self)@ == (RenameState {
                symbols: old(self)@.symbols,
                fallbacks: put_fallback(old(self)@.fallbacks, (module_idx, name@), new_name@),
                used: old(self)@.used,
            }),
    {
        let ghost k: (ModuleIdx, Seq<char>) = (module_idx, name@);
        let ghost fv = self@.fallbacks;
        let mut i: usize = 0;
        while i < self.fallback_name_renames.len()
            invariant
                0 <= i <= fv.len(),
                fv == self@.fallbacks,
                k == (module_idx, name@),
                fallback_slot(fv, k, 0) == fallback_slot(fv, k, i as int),
            ensures
                0 <= i <= fv.len(),
                fallback_slot(fv, k, 0) == fallback_slot(fv, k, i as int),
                i < fv.len() ==> fv[i as int].0 == k,
            decreases fv.len() - i,
        {
            let e = &self.fallback_name_renames[i];
            assert(fv[i as int].0 == (e.0.0, e.0.1@));
            let same = e.0.0 == module_idx && str_eq(e.0.1.as_str(), name);
            proof {
                if fv[i as int].0 == k {
                    assert(fv[i as int].0.0 == k.0 && fv[i as int].0.1 == k.1);
                }
                if same {
                    assert(fv[i as int].0 =~= k);
                }
            }
            if same {
                break;
            }
            i += 1;
        }
        proof { lemma_fallback_slot(fv, k, i as int); }
        if i < self.fallback_name_renames.len() {
            self.fallback_name_renames.set(i, ((module_idx, string_clone(name)), new_name));
            assert(self@.fallbacks =~= fv.update(i as int, (k, new_name@)));
        } else {
            self.fallback_name_renames.push(((module_idx, string_clone(name)), new_name));
            assert(self@.fallbacks =~= fv.push((k, new_name@)));
        }
    }
}

/// The rename of the root-scope name `name` of module `m`: by its symbol,
/// else by the name itself.
pub open spec fn resolve_name_spec(st: RenameState, m: Module, name: Seq<char>) -> Option<Seq<char>> {
    let by_symbol = match root_binding_of(m.scoping.root_bindings@, name) {
        Some(sym) => lookup_symbol(st.symbols, SymbolRef { owner: m.idx, symbol: sym }),
        None => None,
    };
    match by_symbol {
        Some(v) => Some(v),
        None => lookup_fallback(st.fallbacks, (m.idx, name)),
    }
}

/// The name `name` of module `m` has in the output.
pub open spec fn output_name(st: RenameState, m: Module, name: Seq<char>) -> Seq<char> {
    match resolve_name_spec(st, m, name) {
        Some(v) => v,
        None => name,
    }
}

/// The symbol renames of module `mi` among `s`, in order.
pub open spec fn module_renames(s: Seq<(SymbolRef, Seq<char>)>, mi: ModuleIdx) -> Seq<(SymbolId, Seq<char>)>
    decreases s.len(),
{
    if s.len() == 0 {
        Seq::empty()
    } else {
        let prev = module_renames(s.drop_last(), mi);
        if s.last().0.owner == mi { prev.push((s.last().0.symbol, s.last().1)) } else { prev }
    }
}

/// Whether `name` is bound in a scope of `module` other than the root scope.
pub fn has_nested_scope_binding(module: &Module, name: &str) -> (r: bool)
    ensures
        r == str_views(module.scoping.nested_binding_names@).contains(name@),
{
    contains_name(&module.scoping.nested_binding_names, name)
}

/// Registers symbol candidates in order.
pub fn register_symbol_candidates(candidates: &Vec<SymbolCandidate>, table: &ModuleTable, canonical_names: &mut CanonicalNames)
    requires
        forall|i: int| 0 <= i < candidates@.len() ==> (#[trigger] candidates@[i]).module_idx < table.modules@.len(),
        forall|i: int| 0 <= i < candidates@.len() ==> old(canonical_names)@.used.len() + candidates@.len()
            + nested_names(table.modules@, (#[trigger] candidates@[i]).module_idx).len() < u32::MAX,
    ensures
        final(canonical_names)@ == register_symbols(old(canonical_names)@, table.modules@, candidate_views(candidates@)),
        final(canonical_names)@.used.len() == old(canonical_names)@.used.len() + candidates@.len(),
{
    let ghost cv = candidate_views(candidates@);
    let ghost start = canonical_names@;
    let mut i: usize = 0;
    while i < candidates.len()
        invariant
            0 <= i <= cv.len(),
            cv == candidate_views(candidates@),
            forall|j: int| 0 <= j < candidates@.len() ==> (#[trigger] candidates@[j]).module_idx < table.modules@.len(),
            forall|j: int| 0 <= j < candidates@.len() ==> start.used.len() + candidates@.len()
                + nested_names(table.modules@, (#[trigger] candidates@[j]).module_idx).len() < u32::MAX,
            canonical_names@ == register_symbols(start, table.modules@, cv.take(i as int)),
            canonical_names@.used.len() == start.used.len() + i,
        decreases cv.len() - i,
    {
        let c = &candidates[i];
        proof {
            let t = cv.take(i + 1);
            assert(t.drop_last() =~= cv.take(i as int));
            assert(t.last() == c@);
        }
        let module = &table.modules[c.module_idx];
        let ghost before = canonical_names@;
        let chosen = allocate_name(c.name.as_str(), &mut canonical_names.used_names, &module.scoping.nested_binding_names);
        proof {
            lemma_allocation_unique(c.name@, before.used, nested_names(table.modules@, c.module_idx), chosen@);
        }
        if !str_eq(chosen.as_str(), c.name.as_str()) {
            canonical_names.insert_symbol_rename(c.module_idx, c.symbol_id, chosen);
        }
        i += 1;
    }
    assert(cv.take(i as int) =~= cv);
}

/// Registers the fallback names of module `module_idx` in order.
pub fn register_fallback_names(module_idx: ModuleIdx, names: &Vec<String>, table: &ModuleTable, canonical_names: &mut CanonicalNames)
    requires
        module_idx < table.modules@.len(),
        old(canonical_names)@.used.len() + names@.len() + nested_names(table.modules@, module_idx).len() < u32::MAX,
    ensures
        final(canonical_names)@ == register_fallbacks(old(canonical_names)@, table.modules@, module_idx, str_views(names@)),
        final(canonical_names)@.used.len() == old(canonical_names)@.used.len() + names@.len(),
{
    let ghost nv = str_views(names@);
    let ghost start = canonical_names@;
    let module = &table.modules[module_idx];
    let mut i: usize = 0;
    while i < names.len()
        invariant
            0 <= i <= nv.len(),
            nv == str_views(names@),
            module_idx < table.modules@.len(),
            *module == table.modules@[module_idx as int],
            start.used.len() + names@.len() + nested_names(table.modules@, module_idx).len() < u32::MAX,
            canonical_names@ == register_fallbacks(start, table.modules@, module_idx, nv.take(i as int)),
            canonical_names@.used.len() == start.used.len() + i,
        decreases nv.len() - i,
    {
        let name = names[i].as_str();
        proof {
            let t = nv.take(i + 1);
            assert(t.drop_last() =~= nv.take(i as int));
            assert(t.last() == name@);
        }
        let ghost before = canonical_names@;
        let chosen = allocate_name(name, &mut canonical_names.used_names, &module.scoping.nested_binding_names);
        proof {
            lemma_allocation_unique(name@, before.used, nested_names(table.modules@, module_idx), chosen@);
        }
        if !str_eq(chosen.as_str(), name) {
            canonical_names.insert_fallback_rename(module_idx, name, chosen);
        }
        i += 1;
    }
    assert(nv.take(i as int) =~= nv);
}

/// The helper names reserved before any declaration is named:
/// `export_default`, then `{stem}_exports` and `{stem}_d_exports` for each of
/// the first `n` modules, starting from `u`.
pub open spec fn reserve_from(u: Seq<Seq<char>>, t: Seq<Module>, n: nat) -> Seq<Seq<char>>
    decreases n,
{
    if n == 0 {
        push_new(u, "export_default"@)
    } else {
        let stem = underscore_separators(helper_stem(t[n - 1].path@));
        push_new(push_new(reserve_from(u, t, (n - 1) as nat), stem + exports_suffix()), stem + d_exports_suffix())
    }
}

/// Reserves the synthetic helper names of every module.
pub fn reserve_synthetic_helper_names(table: &ModuleTable, used: &mut Vec<String>)
    ensures
        str_views(final(used)@) == reserve_from(str_views(old(used)@), table.modules@, table.modules@.len()),
{
    let ghost u0 = str_views(used@);
    push_name_once(used, "export_default");
    let mut i: usize = 0;
    while i < table.modules.len()
        invariant
            0 <= i <= table.modules@.len(),
            str_views(used@) == reserve_from(u0, table.modules@, i as nat),
        decreases table.modules@.len() - i,
    {
        let (a, b) = synthetic_helper_names(table.modules[i].path.as_str());
        push_name_once(used, a.as_str());
        push_name_once(used, b.as_str());
        i += 1;
    }
}

/// The internal modules named by the entry's `export .. from` and
/// `export * from` statements, in statement order, each once.
pub open spec fn reexport_order(entry: Module, stmts: Seq<StatementSummary>) -> Seq<ModuleIdx>
    decreases stmts.len(),
{
    if stmts.len() == 0 {
        Seq::empty()
    } else {
        let prev = reexport_order(entry, stmts.drop_last());
        let st = stmts.last();
        if (st.kind == StatementKind::ExportNamed || st.kind == StatementKind::ExportAll) && st.source is Some {
            match resolve_internal(entry, st.source->0@) {
                Some(mi) => if prev.contains(mi) { prev } else { prev.push(mi) },
                None => prev,
            }
        } else {
            prev
        }
    }
}

/// The order of the modules in the entry's re-export statements.
pub fn collect_re_export_module_order(entry: &Module) -> (order: Vec<ModuleIdx>)
    ensures
        order@ == reexport_order(*entry, entry.statements@),
{
    let ghost stmts = entry.statements@;
    let mut order: Vec<ModuleIdx> = Vec::new();
    let mut i: usize = 0;
    while i < entry.statements.len()
        invariant
            0 <= i <= stmts.len(),
            stmts == entry.statements@,
            order@ == reexport_order(*entry, stmts.take(i as int)),
        decreases stmts.len() - i,
    {
        let st = &entry.statements[i];
        proof {
            let t = stmts.take(i + 1);
            assert(t.drop_last() =~= stmts.take(i as int));
            assert(t.last() == *st);
        }
        if st.kind == StatementKind::ExportNamed || st.kind == StatementKind::ExportAll {
            if let Some(specifier) = &st.source {
                if let Some(mi) = entry.resolve_internal_specifier(specifier.as_str()) {
                    let mut k: usize = 0;
                    let mut seen = false;
                    while k < order.len()
                        invariant
                            0 <= k <= order@.len(),
                            seen == (exists|q: int| 0 <= q < k && order@[q] == mi),
                        decreases order@.len() - k,
                    {
                        if order[k] == mi {
                            seen = true;
                        }
                        k += 1;
                    }
                    if !seen {
                        order.push(mi);
                    }
                }
            }
        }
        i += 1;
    }
    assert(stmts.take(i as int) =~= stmts);
    order
}

/// The candidates and fallback names of one module, exported and not.
pub struct ModuleRenameData {
    pub module_idx: ModuleIdx,
    pub exported_symbols: Vec<SymbolCandidate>,
    pub exported_fallback_names: Vec<String>,
    pub non_exported_symbols: Vec<SymbolCandidate>,
    pub non_exported_fallback_names: Vec<String>,
}

/// The rename data of one module.
pub fn build_module_rename_data(module: &Module) -> (d: ModuleRenameData)
    ensures
        d.module_idx == module.idx,
        candidate_views(d.exported_symbols@) == split_names(*module, exported_decl_names(*module)).symbols,
        str_views(d.exported_fallback_names@) == split_names(*module, exported_decl_names(*module)).fallbacks,
        candidate_views(d.non_exported_symbols@) == split_names(*module, internal_decl_names(*module)).symbols,
        str_views(d.non_exported_fallback_names@) == split_names(*module, internal_decl_names(*module)).fallbacks,
{
    let (exported, non_exported) = classify_declaration_names(module);
    let (exported_symbols, exported_fallback_names) = resolve_symbol_candidates(module, &exported);
    let (non_exported_symbols, non_exported_fallback_names) = resolve_symbol_candidates(module, &non_exported);
    ModuleRenameData {
        module_idx: module.idx,
        exported_symbols,
        exported_fallback_names,
        non_exported_symbols,
        non_exported_fallback_names,
    }
}

/// Registers the exported names of module `mi`.
pub open spec fn register_exported(st: RenameState, t: Seq<Module>, mi: ModuleIdx) -> RenameState {
    let sp = split_names(t[mi as int], exported_decl_names(t[mi as int]));
    register_fallbacks(register_symbols(st, t, sp.symbols), t, mi, sp.fallbacks)
}

/// Registers the non-exported names of module `mi`.
pub open spec fn register_internal(st: RenameState, t: Seq<Module>, mi: ModuleIdx) -> RenameState {
    let sp = split_names(t[mi as int], internal_decl_names(t[mi as int]));
    register_fallbacks(register_symbols(st, t, sp.symbols), t, mi, sp.fallbacks)
}

/// Registers the exported names of the modules of `order`, in order.
pub open spec fn pass_in_order(st: RenameState, t: Seq<Module>, order: Seq<ModuleIdx>) -> RenameState
    decreases order.len(),
{
    if order.len() == 0 {
        st
    } else {
        register_exported(pass_in_order(st, t, order.drop_last()), t, order.last())
    }
}

/// Registers the exported names of the last `c` modules not in `order`,
/// from the last module backwards.
pub open spec fn pass_rev_exported(st: RenameState, t: Seq<Module>, order: Seq<ModuleIdx>, c: nat) -> RenameState
    decreases c,
{
    if c == 0 {
        st
    } else {
        let prev = pass_rev_exported(st, t, order, (c - 1) as nat);
        let mi = (t.len() - c) as ModuleIdx;
        if order.contains(mi) { prev } else { register_exported(prev, t, mi) }
    }
}

/// Registers the non-exported names of the last `c` modules, from the last
/// module backwards.
pub open spec fn pass_rev_internal(st: RenameState, t: Seq<Module>, c: nat) -> RenameState
    decreases c,
{
    if c == 0 {
        st
    } else {
        register_internal(pass_rev_internal(st, t, (c - 1) as nat), t, (t.len() - c) as ModuleIdx)
    }
}

/// The rename plan of a module graph: helper names are reserved; then the
/// exported names of the modules the entry re-exports from are named in
/// re-export order, then those of the other modules from the last module
/// backwards; then the non-exported names of every module, from the last
/// module backwards. Each name is kept when free, else given the first free
/// `$N` alternative.
pub open spec fn canonical_plan(t: Seq<Module>, entry_idx: ModuleIdx) -> RenameState {
    let order = reexport_order(t[entry_idx as int], t[entry_idx as int].statements@);
    let st0 = RenameState { symbols: Seq::empty(), fallbacks: Seq::empty(), used: reserve_from(Seq::empty(), t, t.len()) };
    pass_rev_internal(pass_rev_exported(pass_in_order(st0, t, order), t, order, t.len()), t, t.len())
}

/// An upper bound on the names a module registers in one pass.
pub open spec fn rename_cap(m: Module) -> nat {
    m.export_import_info.declared_export_names@.len() + 1 + bare_statement_names(m.statements@).len()
}

/// The sum of `rename_cap` over the first `n` modules.
pub open spec fn total_cap(t: Seq<Module>, n: nat) -> nat
    decreases n,
{
    if n == 0 { 0 } else { total_cap(t, (n - 1) as nat) + rename_cap(t[n - 1]) }
}

/// The number of nested-scope names of the first `n` modules.
pub open spec fn total_nested(t: Seq<Module>, n: nat) -> nat
    decreases n,
{
    if n == 0 { 0 } else { total_nested(t, (n - 1) as nat) + t[n - 1].scoping.nested_binding_names@.len() }
}

/// A bound on the names claimed while the plan is built; the `$N` counter is
/// a `u32`, so this must stay below `u32::MAX`.
pub open spec fn rename_budget(t: Seq<Module>, entry: Module) -> nat {
    1 + 2 * t.len() + 2 * (entry.statements@.len() + 2 * t.len()) * total_cap(t, t.len()) + total_nested(t, t.len())
}

proof fn lemma_caps_bounded(t: Seq<Module>, n: nat, i: int)
    requires
        0 <= i < n <= t.len(),
    ensures
        rename_cap(t[i]) <= total_cap(t, n),
        t[i].scoping.nested_binding_names@.len() <= total_nested(t, n),
    decreases n,
{
    if i < n - 1 {
        lemma_caps_bounded(t, (n - 1) as nat, i);
    }
}

proof fn lemma_dedup_len(s: Seq<Seq<char>>)
    ensures
        dedup_names(s).len() <= s.len(),
    decreases s.len(),
{
    if s.len() > 0 {
        lemma_dedup_len(s.drop_last());
    }
}

proof fn lemma_remove_len(s: Seq<Seq<char>>, ex: Seq<Seq<char>>)
    ensures
        remove_names(s, ex).len() <= s.len(),
    decreases s.len(),
{
    if s.len() > 0 {
        lemma_remove_len(s.drop_last(), ex);
    }
}

/// Every list of names a module registers fits its cap.
proof fn lemma_split_caps(m: Module)
    ensures
        split_names(m, exported_decl_names(m)).symbols.len() <= rename_cap(m),
        split_names(m, exported_decl_names(m)).fallbacks.len() <= rename_cap(m),
        split_names(m, internal_decl_names(m)).symbols.len() <= rename_cap(m),
        split_names(m, internal_decl_names(m)).fallbacks.len() <= rename_cap(m),
{
    lemma_dedup_len(str_views(m.export_import_info.declared_export_names@));
    lemma_dedup_len(bare_statement_names(m.statements@));
    lemma_remove_len(dedup_names(bare_statement_names(m.statements@)), exported_decl_names(m));
    lemma_split_len(m, exported_decl_names(m));
    lemma_split_len(m, internal_decl_names(m));
}

proof fn lemma_split_owner(m: Module, names: Seq<Seq<char>>)
    ensures
        forall|i: int| 0 <= i < split_names(m, names).symbols.len() ==> (#[trigger] split_names(m, names).symbols[i]).0 == m.idx,
    decreases names.len(),
{
    if names.len() > 0 {
        lemma_split_owner(m, names.drop_last());
        let prev = split_names(m, names.drop_last());
        let r = split_names(m, names);
        assert forall|i: int| 0 <= i < r.symbols.len() implies (#[trigger] r.symbols[i]).0 == m.idx by {
            if i < prev.symbols.len() {
                assert(r.symbols[i] == prev.symbols[i]);
            }
        }
    }
}

proof fn lemma_reserve_len(u: Seq<Seq<char>>, t: Seq<Module>, n: nat)
    ensures
        reserve_from(u, t, n).len() <= u.len() + 1 + 2 * n,
    decreases n,
{
    if n > 0 {
        lemma_reserve_len(u, t, (n - 1) as nat);
    }
}

proof fn lemma_order_facts(entry: Module, stmts: Seq<StatementSummary>, n: nat)
    requires
        forall|j: int| 0 <= j < entry.resolved_internal_specifiers@.len() ==> (#[trigger] entry.resolved_internal_specifiers@[j]).1 < n,
    ensures
        reexport_order(entry, stmts).len() <= stmts.len(),
        forall|j: int| 0 <= j < reexport_order(entry, stmts).len() ==> (#[trigger] reexport_order(entry, stmts)[j]) < n,
    decreases stmts.len(),
{
    if stmts.len() > 0 {
        lemma_order_facts(entry, stmts.drop_last(), n);
        let prev = reexport_order(entry, stmts.drop_last());
        let r = reexport_order(entry, stmts);
        let st = stmts.last();
        if (st.kind == StatementKind::ExportNamed || st.kind == StatementKind::ExportAll) && st.source is Some {
            crate::model::lemma_assoc_get_in(entry.resolved_internal_specifiers@, st.source->0@);
        }
        assert forall|j: int| 0 <= j < r.len() implies (#[trigger] r[j]) < n by {
            if j < prev.len() {
                assert(r[j] == prev[j]);
            }
        }
    }
}

proof fn lemma_budget_step(base: nat, calls: nat, k: nat, s: nat, used: nat, list: nat)
    requires
        used <= base + calls * s,
        list <= s,
        calls + 1 <= k,
    ensures
        used + list <= base + (calls + 1) * s,
        base + (calls + 1) * s <= base + k * s,
{
    assert((calls + 1) * s == calls * s + s) by (nonlinear_arith);
    assert((calls + 1) * s <= k * s) by (nonlinear_arith)
        requires
            calls + 1 <= k,
    ;
}

/// Registers the exported or non-exported names of one module.
fn register_module_names(
    symbols: &Vec<SymbolCandidate>,
    fallbacks: &Vec<String>,
    mi: ModuleIdx,
    table: &ModuleTable,
    canonical_names: &mut CanonicalNames,
)
    requires
        mi < table.modules@.len(),
        forall|i: int| 0 <= i < symbols@.len() ==> (#[trigger] symbols@[i]).module_idx == mi,
        old(canonical_names)@.used.len() + symbols@.len() + fallbacks@.len() + nested_names(table.modules@, mi).len() < u32::MAX,
    ensures
        final(canonical_names)@ == register_fallbacks(
            register_symbols(old(canonical_names)@, table.modules@, candidate_views(symbols@)),
            table.modules@,
            mi,
            str_views(fallbacks@),
        ),
        final(canonical_names)@.used.len() == old(canonical_names)@.used.len() + symbols@.len() + fallbacks@.len(),
{
    register_symbol_candidates(symbols, table, canonical_names);
    register_fallback_names(mi, fallbacks, table, canonical_names);
}

/// Builds the rename plan for the declarations of all modules; `entry_idx` is
/// the first entry point, whose re-export order gives priority.
pub fn build_canonical_names(table: &ModuleTable, entry_idx: ModuleIdx) -> (cn: CanonicalNames)
    requires
        table.wf(),
        entry_idx < table.modules@.len(),
        rename_budget(table.modules@, table.modules@[entry_idx as int]) < u32::MAX,
    ensures
        cn@ == canonical_plan(table.modules@, entry_idx),
{
    let ghost t = table.modules@;
    let ghost n = t.len();
    let ghost s_cap = total_cap(t, n as nat);
    let ghost n_nested = total_nested(t, n as nat);
    let ghost e_len = t[entry_idx as int].statements@.len();
    let ghost k_calls: nat = 2 * (e_len + 2 * n) as nat;
    let ghost base: nat = (1 + 2 * n) as nat;
    let mut cn = CanonicalNames { symbols: Vec::new(), fallback_name_renames: Vec::new(), used_names: Vec::new() };
    reserve_synthetic_helper_names(table, &mut cn.used_names);
    assert(cn@.symbols =~= Seq::<(SymbolRef, Seq<char>)>::empty());
    assert(cn@.fallbacks =~= Seq::<((ModuleIdx, Seq<char>), Seq<char>)>::empty());
    assert(str_views(Seq::<String>::empty()) =~= Seq::<Seq<char>>::empty());
    proof { lemma_reserve_len(Seq::empty(), t, n as nat); }
    let ghost st0 = cn@;
    let mut data: Vec<ModuleRenameData> = Vec::new();
    let mut i: usize = 0;
    while i < table.modules.len()
        invariant
            0 <= i <= n,
            t == table.modules@,
            n == t.len(),
            data@.len() == i,
            forall|j: int| 0 <= j < i ==> {
                let d = #[trigger] data@[j];
                &&& d.module_idx == t[j].idx
                &&& candidate_views(d.exported_symbols@) == split_names(t[j], exported_decl_names(t[j])).symbols
                &&& str_views(d.exported_fallback_names@) == split_names(t[j], exported_decl_names(t[j])).fallbacks
                &&& candidate_views(d.non_exported_symbols@) == split_names(t[j], internal_decl_names(t[j])).symbols
                &&& str_views(d.non_exported_fallback_names@) == split_names(t[j], internal_decl_names(t[j])).fallbacks
            },
        decreases n - i,
    {
        data.push(build_module_rename_data(&table.modules[i]));
        i += 1;
    }
    let entry = &table.modules[entry_idx];
    let order = collect_re_export_module_order(entry);
    proof {
        assert(t[entry_idx as int].idx == entry_idx);
        lemma_order_facts(*entry, entry.statements@, n as nat);
    }
    // exported names of the modules the entry re-exports from, in order
    let ghost mut calls: nat = 0;
    let mut j: usize = 0;
    while j < order.len()
        invariant
            0 <= j <= order@.len(),
            t == table.modules@,
            n == t.len(),
            table.wf(),
            order@.len() <= e_len,
            forall|q: int| 0 <= q < order@.len() ==> (#[trigger] order@[q]) < n,
            data@.len() == n,
            forall|q: int| 0 <= q < n ==> {
                let d = #[trigger] data@[q];
                &&& d.module_idx == t[q].idx
                &&& candidate_views(d.exported_symbols@) == split_names(t[q], exported_decl_names(t[q])).symbols
                &&& str_views(d.exported_fallback_names@) == split_names(t[q], exported_decl_names(t[q])).fallbacks
                &&& candidate_views(d.non_exported_symbols@) == split_names(t[q], internal_decl_names(t[q])).symbols
                &&& str_views(d.non_exported_fallback_names@) == split_names(t[q], internal_decl_names(t[q])).fallbacks
            },
            cn@ == pass_in_order(st0, t, order@.take(j as int)),
            calls == 2 * j,
            cn@.used.len() <= base + calls * s_cap,
            base + k_calls * s_cap + n_nested < u32::MAX,
            s_cap == total_cap(t, n as nat),
            n_nested == total_nested(t, n as nat),
            e_len == t[entry_idx as int].statements@.len(),
            k_calls == 2 * (e_len + 2 * n),
            base == 1 + 2 * n,
            entry_idx < n,
        decreases order@.len() - j,
    {
        let mi = order[j];
        let d = &data[mi];
        proof {
            let tj = order@.take(j + 1);
            assert(tj.drop_last() =~= order@.take(j as int));
            assert(tj.last() == mi);
            lemma_split_caps(t[mi as int]);
            lemma_caps_bounded(t, n as nat, mi as int);
            lemma_split_owner(t[mi as int], exported_decl_names(t[mi as int]));
            assert(t[mi as int].idx == mi);
            assert forall|q: int| 0 <= q < d.exported_symbols@.len() implies (#[trigger] d.exported_symbols@[q]).module_idx == mi by {
                assert(candidate_views(d.exported_symbols@)[q] == d.exported_symbols@[q]@);
            }
            assert(candidate_views(d.exported_symbols@).len() == d.exported_symbols@.len());
            assert(str_views(d.exported_fallback_names@).len() == d.exported_fallback_names@.len());
            assert(d.exported_symbols@.len() <= s_cap);
            assert(d.exported_fallback_names@.len() <= s_cap);
            lemma_budget_step(base, calls, k_calls, s_cap, cn@.used.len(), d.exported_symbols@.len());
            lemma_budget_step(base, calls + 1, k_calls, s_cap, cn@.used.len() + d.exported_symbols@.len(), d.exported_fallback_names@.len());
        }
        register_module_names(&d.exported_symbols, &d.exported_fallback_names, mi, table, &mut cn);
        proof { calls = calls + 2; }
        j += 1;
    }
    assert(order@.take(j as int) =~= order@);
    let ghost st1 = cn@;
    // exported names of the other modules, from the last module backwards
    let mut c: usize = 0;
    while c < table.modules.len()
        invariant
            0 <= c <= n,
            t == table.modules@,
            n == t.len(),
            table.wf(),
            order@.len() <= e_len,
            data@.len() == n,
            forall|q: int| 0 <= q < n ==> {
                let d = #[trigger] data@[q];
                &&& d.module_idx == t[q].idx
                &&& candidate_views(d.exported_symbols@) == split_names(t[q], exported_decl_names(t[q])).symbols
                &&& str_views(d.exported_fallback_names@) == split_names(t[q], exported_decl_names(t[q])).fallbacks
                &&& candidate_views(d.non_exported_symbols@) == split_names(t[q], internal_decl_names(t[q])).symbols
                &&& str_views(d.non_exported_fallback_names@) == split_names(t[q], internal_decl_names(t[q])).fallbacks
            },
            cn@ == pass_rev_exported(st1, t, order@, c as nat),
            calls <= 2 * order@.len() + 2 * c,
            cn@.used.len() <= base + calls * s_cap,
            base + k_calls * s_cap + n_nested < u32::MAX,
            s_cap == total_cap(t, n as nat),
            n_nested == total_nested(t, n as nat),
            e_len == t[entry_idx as int].statements@.len(),
            k_calls == 2 * (e_len + 2 * n),
            base == 1 + 2 * n,
            entry_idx < n,
        decreases n - c,
    {
        let mi = table.modules.len() - 1 - c;
        let mut in_order = false;
        let mut q: usize = 0;
        while q < order.len()
            invariant
                0 <= q <= order@.len(),
                in_order == (exists|p: int| 0 <= p < q && order@[p] == mi),
            decreases order@.len() - q,
        {
            if order[q] == mi {
                in_order = true;
            }
            q += 1;
        }
        if !in_order {
            let d = &data[mi];
            proof {
                lemma_split_caps(t[mi as int]);
                lemma_caps_bounded(t, n as nat, mi as int);
                lemma_split_owner(t[mi as int], exported_decl_names(t[mi as int]));
                assert(t[mi as int].idx == mi);
                assert forall|q: int| 0 <= q < d.exported_symbols@.len() implies (#[trigger] d.exported_symbols@[q]).module_idx == mi by {
                    assert(candidate_views(d.exported_symbols@)[q] == d.exported_symbols@[q]@);
                }
                assert(candidate_views(d.exported_symbols@).len() == d.exported_symbols@.len());
            assert(str_views(d.exported_fallback_names@).len() == d.exported_fallback_names@.len());
            assert(d.exported_symbols@.len() <= s_cap);
            assert(d.exported_fallback_names@.len() <= s_cap);
            lemma_budget_step(base, calls, k_calls, s_cap, cn@.used.len(), d.exported_symbols@.len());
                lemma_budget_step(base, calls + 1, k_calls, s_cap, cn@.used.len() + d.exported_symbols@.len(), d.exported_fallback_names@.len());
            }
            register_module_names(&d.exported_symbols, &d.exported_fallback_names, mi, table, &mut cn);
            proof { calls = calls + 2; }
        }
        c += 1;
    }
    let ghost st2 = cn@;
    // non-exported names of every module, from the last module backwards
    let mut c: usize = 0;
    while c < table.modules.len()
        invariant
            0 <= c <= n,
            t == table.modules@,
            n == t.len(),
            table.wf(),
            order@.len() <= e_len,
            data@.len() == n,
            forall|q: int| 0 <= q < n ==> {
                let d = #[trigger] data@[q];
                &&& d.module_idx == t[q].idx
                &&& candidate_views(d.non_exported_symbols@) == split_names(t[q], internal_decl_names(t[q])).symbols
                &&& str_views(d.non_exported_fallback_names@) == split_names(t[q], internal_decl_names(t[q])).fallbacks
            },
            cn@ == pass_rev_internal(st2, t, c as nat),
            calls <= 2 * order@.len() + 2 * n + 2 * c,
            cn@.used.len() <= base + calls * s_cap,
            base + k_calls * s_cap + n_nested < u32::MAX,
            s_cap == total_cap(t, n as nat),
            n_nested == total_nested(t, n as nat),
            e_len == t[entry_idx as int].statements@.len(),
            k_calls == 2 * (e_len + 2 * n),
            base == 1 + 2 * n,
            entry_idx < n,
        decreases n - c,
    {
        let mi = table.modules.len() - 1 - c;
        let d = &data[mi];
        proof {
            lemma_split_caps(t[mi as int]);
            lemma_caps_bounded(t, n as nat, mi as int);
            lemma_split_owner(t[mi as int], internal_decl_names(t[mi as int]));
            assert(t[mi as int].idx == mi);
            assert forall|q: int| 0 <= q < d.non_exported_symbols@.len() implies (#[trigger] d.non_exported_symbols@[q]).module_idx == mi by {
                assert(candidate_views(d.non_exported_symbols@)[q] == d.non_exported_symbols@[q]@);
            }
            assert(candidate_views(d.non_exported_symbols@).len() == d.non_exported_symbols@.len());
            assert(str_views(d.non_exported_fallback_names@).len() == d.non_exported_fallback_names@.len());
            assert(d.non_exported_symbols@.len() <= s_cap);
            assert(d.non_exported_fallback_names@.len() <= s_cap);
            lemma_budget_step(base, calls, k_calls, s_cap, cn@.used.len(), d.non_exported_symbols@.len());
            lemma_budget_step(base, calls + 1, k_calls, s_cap, cn@.used.len() + d.non_exported_symbols@.len(), d.non_exported_fallback_names@.len());
        }
        register_module_names(&d.non_exported_symbols, &d.non_exported_fallback_names, mi, table, &mut cn);
        proof { calls = calls + 2; }
        c += 1;
    }
    cn
}

/// The plan claims each name once, and every rename target is claimed.
pub open spec fn plan_ok(st: RenameState) -> bool {
    &&& st.used.no_duplicates()
    &&& forall|i: int| 0 <= i < st.symbols.len() ==> st.used.contains(#[trigger] st.symbols[i].1)
    &&& forall|i: int| 0 <= i < st.fallbacks.len() ==> st.used.contains(#[trigger] st.fallbacks[i].1)
}

proof fn lemma_first_free_from(base: Seq<char>, used: Seq<Seq<char>>, nested: Seq<Seq<char>>, i: nat, k0: nat) -> (k: nat)
    requires
        1 <= i <= k0,
        name_free(used, nested, suffixed(base, k0)),
        forall|j: nat| 1 <= j < i ==> !name_free(used, nested, #[trigger] suffixed(base, j)),
    ensures
        k >= 1,
        name_free(used, nested, suffixed(base, k)),
        forall|j: nat| 1 <= j < k ==> !name_free(used, nested, #[trigger] suffixed(base, j)),
    decreases k0 - i,
{
    if !name_free(used, nested, suffixed(base, i)) {
        lemma_first_free_from(base, used, nested, i + 1, k0)
    } else {
        i
    }
}

/// A name meeting `allocation_ok` is not used yet.
proof fn lemma_allocation_fresh(base: Seq<char>, used: Seq<Seq<char>>, nested: Seq<Seq<char>>, r: Seq<char>)
    requires
        allocation_ok(base, used, nested, r),
    ensures
        !used.contains(r),
{
    if used.contains(base) {
        let k = choose|k: nat|
            k >= 1 && r == suffixed(base, k) && name_free(used, nested, r) && forall|j: nat|
                1 <= j < k ==> !name_free(used, nested, #[trigger] suffixed(base, j));
    }
}

/// Some name meets `allocation_ok`.
proof fn lemma_allocation_exists(base: Seq<char>, used: Seq<Seq<char>>, nested: Seq<Seq<char>>)
    ensures
        exists|r: Seq<char>| allocation_ok(base, used, nested, r),
{
    if !used.contains(base) {
        assert(allocation_ok(base, used, nested, base));
    } else {
        lemma_some_alternative_free(base, used, nested, (used.len() + nested.len() + 1) as nat);
        let k0 = choose|k: nat| 1 <= k <= used.len() + nested.len() + 1 && name_free(used, nested, #[trigger] suffixed(base, k));
        let k = lemma_first_free_from(base, used, nested, 1, k0);
        assert(allocation_ok(base, used, nested, suffixed(base, k)));
    }
}

/// `allocated` always meets `allocation_ok`, and is not used yet.
pub proof fn lemma_allocated_ok(base: Seq<char>, used: Seq<Seq<char>>, nested: Seq<Seq<char>>)
    ensures
        allocation_ok(base, used, nested, allocated(base, used, nested)),
        !used.contains(allocated(base, used, nested)),
{
    lemma_allocation_exists(base, used, nested);
    lemma_allocation_fresh(base, used, nested, allocated(base, used, nested));
}

proof fn lemma_claim_ok(st: RenameState, r: Seq<char>)
    requires
        plan_ok(st),
        !st.used.contains(r),
    ensures
        st.used.push(r).no_duplicates(),
        forall|x: Seq<char>| st.used.contains(x) ==> st.used.push(r).contains(x),
        st.used.push(r).contains(r),
{
    let u = st.used.push(r);
    assert(u[st.used.len() as int] == r);
    assert forall|x: Seq<char>| st.used.contains(x) implies u.contains(x) by {
        let i = choose|i: int| 0 <= i < st.used.len() && st.used[i] == x;
        assert(u[i] == x);
    }
}

proof fn lemma_register_symbol_ok(st: RenameState, t: Seq<Module>, c: (ModuleIdx, SymbolId, Seq<char>))
    requires
        plan_ok(st),
    ensures
        plan_ok(register_symbol(st, t, c)),
{
    let r = allocated(c.2, st.used, nested_names(t, c.0));
    lemma_allocated_ok(c.2, st.used, nested_names(t, c.0));
    lemma_claim_ok(st, r);
    let k = SymbolRef { owner: c.0, symbol: c.1 };
    let st2 = register_symbol(st, t, c);
    lemma_symbol_slot(st.symbols, k, 0);
    assert forall|i: int| 0 <= i < st2.symbols.len() implies st2.used.contains(#[trigger] st2.symbols[i].1) by {
        if r != c.2 {
            let p = symbol_slot(st.symbols, k, 0);
            if i == p || i == st.symbols.len() {
            } else {
                assert(st2.symbols[i] == st.symbols[i]);
            }
        }
    }
    assert forall|i: int| 0 <= i < st2.fallbacks.len() implies st2.used.contains(#[trigger] st2.fallbacks[i].1) by {
        assert(st2.fallbacks[i] == st.fallbacks[i]);
    }
}

proof fn lemma_register_fallback_ok(st: RenameState, t: Seq<Module>, mi: ModuleIdx, name: Seq<char>)
    requires
        plan_ok(st),
    ensures
        plan_ok(register_fallback(st, t, mi, name)),
{
    let r = allocated(name, st.used, nested_names(t, mi));
    lemma_allocated_ok(name, st.used, nested_names(t, mi));
    lemma_claim_ok(st, r);
    let k = (mi, name);
    let st2 = register_fallback(st, t, mi, name);
    lemma_fallback_slot(st.fallbacks, k, 0);
    assert forall|i: int| 0 <= i < st2.fallbacks.len() implies st2.used.contains(#[trigger] st2.fallbacks[i].1) by {
        if r != name {
            let p = fallback_slot(st.fallbacks, k, 0);
            if i == p || i == st.fallbacks.len() {
            } else {
                assert(st2.fallbacks[i] == st.fallbacks[i]);
            }
        }
    }
    assert forall|i: int| 0 <= i < st2.symbols.len() implies st2.used.contains(#[trigger] st2.symbols[i].1) by {
        assert(st2.symbols[i] == st.symbols[i]);
    }
}

proof fn lemma_register_symbols_ok(st: RenameState, t: Seq<Module>, cs: Seq<(ModuleIdx, SymbolId, Seq<char>)>)
    requires
        plan_ok(st),
    ensures
        plan_ok(register_symbols(st, t, cs)),
    decreases cs.len(),
{
    if cs.len() > 0 {
        lemma_register_symbols_ok(st, t, cs.drop_last());
        lemma_register_symbol_ok(register_symbols(st, t, cs.drop_last()), t, cs.last());
    }
}

proof fn lemma_register_fallbacks_ok(st: RenameState, t: Seq<Module>, mi: ModuleIdx, names: Seq<Seq<char>>)
    requires
        plan_ok(st),
    ensures
        plan_ok(register_fallbacks(st, t, mi, names)),
    decreases names.len(),
{
    if names.len() > 0 {
        lemma_register_fallbacks_ok(st, t, mi, names.drop_last());
        lemma_register_fallback_ok(register_fallbacks(st, t, mi, names.drop_last()), t, mi, names.last());
    }
}

proof fn lemma_register_module_ok(st: RenameState, t: Seq<Module>, mi: ModuleIdx)
    requires
        plan_ok(st),
    ensures
        plan_ok(register_exported(st, t, mi)),
        plan_ok(register_internal(st, t, mi)),
{
    let sp = split_names(t[mi as int], exported_decl_names(t[mi as int]));
    lemma_register_symbols_ok(st, t, sp.symbols);
    lemma_register_fallbacks_ok(register_symbols(st, t, sp.symbols), t, mi, sp.fallbacks);
    let sq = split_names(t[mi as int], internal_decl_names(t[mi as int]));
    lemma_register_symbols_ok(st, t, sq.symbols);
    lemma_register_fallbacks_ok(register_symbols(st, t, sq.symbols), t, mi, sq.fallbacks);
}

proof fn lemma_passes_ok(st: RenameState, t: Seq<Module>, order: Seq<ModuleIdx>, c: nat)
    requires
        plan_ok(st),
    ensures
        plan_ok(pass_in_order(st, t, order)),
        plan_ok(pass_rev_exported(st, t, order, c)),
        plan_ok(pass_rev_internal(st, t, c)),
    decreases order.len() + c,
{
    if order.len() > 0 {
        lemma_passes_ok(st, t, order.drop_last(), c);
        lemma_register_module_ok(pass_in_order(st, t, order.drop_last()), t, order.last());
    }
    if c > 0 {
        lemma_passes_ok(st, t, order, (c - 1) as nat);
        lemma_register_module_ok(pass_rev_exported(st, t, order, (c - 1) as nat), t, (t.len() - c) as ModuleIdx);
        lemma_register_module_ok(pass_rev_internal(st, t, (c - 1) as nat), t, (t.len() - c) as ModuleIdx);
    }
}

proof fn lemma_push_new_no_dup(s: Seq<Seq<char>>, x: Seq<char>)
    requires
        s.no_duplicates(),
    ensures
        push_new(s, x).no_duplicates(),
        push_new(s, x).contains(x),
{
    if !s.contains(x) {
        assert(s.push(x)[s.len() as int] == x);
    }
}

proof fn lemma_reserve_no_dup(t: Seq<Module>, n: nat)
    ensures
        reserve_from(Seq::empty(), t, n).no_duplicates(),
    decreases n,
{
    if n == 0 {
        lemma_push_new_no_dup(Seq::empty(), "export_default"@);
    } else {
        lemma_reserve_no_dup(t, (n - 1) as nat);
        let stem = underscore_separators(helper_stem(t[n - 1].path@));
        let p = reserve_from(Seq::empty(), t, (n - 1) as nat);
        lemma_push_new_no_dup(p, stem + exports_suffix());
        lemma_push_new_no_dup(push_new(p, stem + exports_suffix()), stem + d_exports_suffix());
    }
}

/// Law: the rename plan claims every output name at most once (helper names
/// included), and every renamed declaration's new name is one of the claimed
/// names: no two declarations of the bundle end up with the same name.
pub proof fn law_canonical_names_distinct(t: Seq<Module>, entry_idx: ModuleIdx)
    requires
        entry_idx < t.len(),
    ensures
        plan_ok(canonical_plan(t, entry_idx)),
{
    let order = reexport_order(t[entry_idx as int], t[entry_idx as int].statements@);
    let st0 = RenameState { symbols: Seq::empty(), fallbacks: Seq::empty(), used: reserve_from(Seq::empty(), t, t.len()) };
    lemma_reserve_no_dup(t, t.len());
    assert(plan_ok(st0));
    lemma_passes_ok(st0, t, order, t.len());
    let st1 = pass_in_order(st0, t, order);
    lemma_passes_ok(st1, t, order, t.len());
    let st2 = pass_rev_exported(st1, t, order, t.len());
    lemma_passes_ok(st2, t, order, t.len());
}


proof fn lemma_slot_same_keys(s1: Seq<(SymbolRef, Seq<char>)>, s2: Seq<(SymbolRef, Seq<char>)>, k: SymbolRef, i: int)
    requires
        0 <= i <= s1.len(),
        s1.len() == s2.len(),
        forall|q: int| 0 <= q < s1.len() ==> ((#[trigger] s1[q]).0 == k) == (s2[q].0 == k),
    ensures
        symbol_slot(s1, k, i) == symbol_slot(s2, k, i),
    decreases s1.len() - i,
{
    if i < s1.len() && s1[i].0 != k {
        lemma_slot_same_keys(s1, s2, k, i + 1);
    }
}

proof fn lemma_slot_push(s: Seq<(SymbolRef, Seq<char>)>, e: (SymbolRef, Seq<char>), k: SymbolRef, i: int)
    requires
        0 <= i <= s.len(),
        e.0 != k,
    ensures
        symbol_slot(s.push(e), k, i) == if symbol_slot(s, k, i) < s.len() { symbol_slot(s, k, i) } else { s.len() + 1int },
    decreases s.len() - i,
{
    if i < s.len() && s[i].0 != k {
        lemma_slot_push(s, e, k, i + 1);
    } else if i == s.len() {
        assert(s.push(e)[i] == e);
        assert(symbol_slot(s.push(e), k, i + 1) == s.len() + 1int);
    }
}

/// Setting the rename of another symbol leaves the rename of `k` as it was.
proof fn lemma_lookup_put_other(s: Seq<(SymbolRef, Seq<char>)>, k2: SymbolRef, v: Seq<char>, k: SymbolRef)
    requires
        k2 != k,
    ensures
        lookup_symbol(put_symbol(s, k2, v), k) == lookup_symbol(s, k),
{
    let p = symbol_slot(s, k2, 0);
    lemma_symbol_slot(s, k2, 0);
    lemma_symbol_slot(s, k, 0);
    if p < s.len() {
        let s2 = s.update(p, (k2, v));
        assert forall|q: int| 0 <= q < s.len() implies ((#[trigger] s[q]).0 == k) == (s2[q].0 == k) by {
            if q == p {
                assert(s[q].0 == k2);
            }
        }
        lemma_slot_same_keys(s, s2, k, 0);
        lemma_symbol_slot(s2, k, 0);
    } else {
        lemma_slot_push(s, (k2, v), k, 0);
    }
}

/// Registering candidates with other keys leaves the rename of `k` as it was.
proof fn lemma_register_symbols_other(st: RenameState, t: Seq<Module>, cs: Seq<(ModuleIdx, SymbolId, Seq<char>)>, k: SymbolRef)
    requires
        forall|j: int| 0 <= j < cs.len() ==> (SymbolRef { owner: (#[trigger] cs[j]).0, symbol: cs[j].1 }) != k,
    ensures
        lookup_symbol(register_symbols(st, t, cs).symbols, k) == lookup_symbol(st.symbols, k),
    decreases cs.len(),
{
    if cs.len() > 0 {
        let prev = register_symbols(st, t, cs.drop_last());
        assert forall|j: int| 0 <= j < cs.drop_last().len() implies (SymbolRef { owner: (#[trigger] cs.drop_last()[j]).0, symbol: cs.drop_last()[j].1 }) != k by {
            assert(cs.drop_last()[j] == cs[j]);
        }
        lemma_register_symbols_other(st, t, cs.drop_last(), k);
        let c = cs.last();
        assert(c == cs[cs.len() - 1]);
        let r = allocated(c.2, prev.used, nested_names(t, c.0));
        if r != c.2 {
            lemma_lookup_put_other(prev.symbols, SymbolRef { owner: c.0, symbol: c.1 }, r, k);
        }
    }
}

/// Fallback names leave the symbol renames as they are.
proof fn lemma_register_fallbacks_symbols(st: RenameState, t: Seq<Module>, mi: ModuleIdx, names: Seq<Seq<char>>)
    ensures
        register_fallbacks(st, t, mi, names).symbols == st.symbols,
    decreases names.len(),
{
    if names.len() > 0 {
        lemma_register_fallbacks_symbols(st, t, mi, names.drop_last());
    }
}

/// The first root binding of a name is a binding of that name.
proof fn lemma_root_binding_in(bs: Seq<crate::model::RootBinding>, n: Seq<char>)
    ensures
        root_binding_of(bs, n) matches Some(s) ==> exists|i: int| 0 <= i < bs.len() && (#[trigger] bs[i]).name@ == n && bs[i].symbol == s,
    decreases bs.len(),
{
    if bs.len() > 0 && bs[0].name@ != n {
        lemma_root_binding_in(bs.drop_first(), n);
        if root_binding_of(bs, n) is Some {
            let s = root_binding_of(bs, n)->0;
            let i = choose|i: int| 0 <= i < bs.drop_first().len() && (#[trigger] bs.drop_first()[i]).name@ == n && bs.drop_first()[i].symbol == s;
            assert(bs[i + 1] == bs.drop_first()[i]);
        }
    } else if bs.len() > 0 {
        assert(bs[0].name@ == n);
    }
}

/// The candidates of a split belong to the module, come from `names`, in
/// the order of `names`, and stand for the root symbols of their names.
proof fn lemma_split_candidates(m: Module, names: Seq<Seq<char>>)
    ensures
        forall|j: int| 0 <= j < split_names(m, names).symbols.len() ==> {
            &&& (#[trigger] split_names(m, names).symbols[j]).0 == m.idx
            &&& names.contains(split_names(m, names).symbols[j].2)
            &&& root_binding_of(m.scoping.root_bindings@, split_names(m, names).symbols[j].2) == Some(split_names(m, names).symbols[j].1)
        },
        names.no_duplicates() ==> split_names(m, names).symbols.map_values(|c: (ModuleIdx, SymbolId, Seq<char>)| c.2).no_duplicates(),
    decreases names.len(),
{
    if names.len() > 0 {
        let prev = split_names(m, names.drop_last());
        lemma_split_candidates(m, names.drop_last());
        let cur = split_names(m, names);
        assert forall|j: int| 0 <= j < cur.symbols.len() implies {
            &&& (#[trigger] cur.symbols[j]).0 == m.idx
            &&& names.contains(cur.symbols[j].2)
            &&& root_binding_of(m.scoping.root_bindings@, cur.symbols[j].2) == Some(cur.symbols[j].1)
        } by {
            if j < prev.symbols.len() {
                assert(cur.symbols[j] == prev.symbols[j]);
                let x = prev.symbols[j].2;
                let q = choose|q: int| 0 <= q < names.drop_last().len() && names.drop_last()[q] == x;
                assert(names[q] == x);
            } else {
                assert(cur.symbols[j].2 == names.last());
                assert(names[names.len() - 1] == names.last());
            }
        }
        if names.no_duplicates() {
            assert(names.drop_last().no_duplicates()) by {
                assert forall|a: int, b: int| 0 <= a < names.drop_last().len() && 0 <= b < names.drop_last().len() && a != b implies names.drop_last()[a] != names.drop_last()[b] by {
                    assert(names.drop_last()[a] == names[a]);
                    assert(names.drop_last()[b] == names[b]);
                }
            }
            let pn = prev.symbols.map_values(|c: (ModuleIdx, SymbolId, Seq<char>)| c.2);
            let cn = cur.symbols.map_values(|c: (ModuleIdx, SymbolId, Seq<char>)| c.2);
            if cur.symbols.len() > prev.symbols.len() {
                assert(cn =~= pn.push(names.last()));
                assert forall|a: int| 0 <= a < pn.len() implies pn[a] != names.last() by {
                    let x = prev.symbols[a].2;
                    assert(pn[a] == x);
                    let q = choose|q: int| 0 <= q < names.drop_last().len() && names.drop_last()[q] == x;
                    assert(names[q] == x);
                    assert(names[names.len() - 1] == names.last());
                }
                assert forall|a: int, b: int| 0 <= a < cn.len() && 0 <= b < cn.len() && a != b implies cn[a] != cn[b] by {
                    if a < pn.len() && b < pn.len() {
                        assert(cn[a] == pn[a] && cn[b] == pn[b]);
                    }
                }
            } else {
                assert(cn =~= pn);
            }
        }
    }
}

proof fn lemma_dedup_no_duplicates(s: Seq<Seq<char>>)
    ensures
        dedup_names(s).no_duplicates(),
    decreases s.len(),
{
    if s.len() > 0 {
        lemma_dedup_no_duplicates(s.drop_last());
        lemma_push_new_no_dup_pub(dedup_names(s.drop_last()), s.last());
    }
}

proof fn lemma_push_new_no_dup_pub(s: Seq<Seq<char>>, x: Seq<char>)
    requires
        s.no_duplicates(),
    ensures
        push_new(s, x).no_duplicates(),
{
    if !s.contains(x) {
        assert forall|a: int, b: int| 0 <= a < s.push(x).len() && 0 <= b < s.push(x).len() && a != b implies s.push(x)[a] != s.push(x)[b] by {
            if a == s.len() as int {
                assert(s.push(x)[b] == s[b]);
            } else if b == s.len() as int {
                assert(s.push(x)[a] == s[a]);
            }
        }
    }
}

proof fn lemma_remove_names_excludes(s: Seq<Seq<char>>, ex: Seq<Seq<char>>, x: Seq<char>)
    ensures
        remove_names(s, ex).contains(x) ==> !ex.contains(x),
    decreases s.len(),
{
    if s.len() > 0 {
        lemma_remove_names_excludes(s.drop_last(), ex, x);
        let prev = remove_names(s.drop_last(), ex);
        if remove_names(s, ex).contains(x) && !ex.contains(s.last()) && !prev.contains(x) {
            let q = choose|q: int| 0 <= q < prev.push(s.last()).len() && prev.push(s.last())[q] == x;
            assert(q == prev.len());
        }
    }
}

/// The first registration of the exported candidates `cs`: each name is
/// free (not used yet, and no earlier candidate has it), so each keeps its
/// name and nothing is renamed.
proof fn lemma_register_fresh(st: RenameState, t: Seq<Module>, cs: Seq<(ModuleIdx, SymbolId, Seq<char>)>)
    requires
        forall|j: int| 0 <= j < cs.len() ==> !st.used.contains(#[trigger] cs[j].2),
        cs.map_values(|c: (ModuleIdx, SymbolId, Seq<char>)| c.2).no_duplicates(),
    ensures
        register_symbols(st, t, cs).symbols == st.symbols,
        register_symbols(st, t, cs).used == st.used + cs.map_values(|c: (ModuleIdx, SymbolId, Seq<char>)| c.2),
    decreases cs.len(),
{
    let names = cs.map_values(|c: (ModuleIdx, SymbolId, Seq<char>)| c.2);
    if cs.len() == 0 {
        assert(st.used + names =~= st.used);
    } else {
        let d = cs.drop_last();
        let dn = d.map_values(|c: (ModuleIdx, SymbolId, Seq<char>)| c.2);
        assert(dn =~= names.drop_last());
        assert forall|j: int| 0 <= j < d.len() implies !st.used.contains(#[trigger] d[j].2) by {
            assert(d[j] == cs[j]);
        }
        assert forall|a: int, b: int| 0 <= a < dn.len() && 0 <= b < dn.len() && a != b implies dn[a] != dn[b] by {
            assert(dn[a] == names[a] && dn[b] == names[b]);
        }
        lemma_register_fresh(st, t, d);
        let prev = register_symbols(st, t, d);
        let c = cs.last();
        assert(c == cs[cs.len() - 1]);
        assert(names[cs.len() - 1] == c.2);
        assert(!prev.used.contains(c.2)) by {
            if prev.used.contains(c.2) {
                let q = choose|q: int| 0 <= q < prev.used.len() && prev.used[q] == c.2;
                if q < st.used.len() {
                    assert((st.used + dn)[q] == st.used[q]);
                } else {
                    assert((st.used + dn)[q] == dn[q - st.used.len()]);
                    assert(dn[q - st.used.len()] == names[q - st.used.len()]);
                }
            }
        }
        assert(allocation_ok(c.2, prev.used, nested_names(t, c.0), c.2));
        lemma_allocation_unique(c.2, prev.used, nested_names(t, c.0), c.2);
        assert(st.used + names =~= (st.used + dn).push(c.2));
    }
}

/// Whether every symbol of the module's root bindings has one name.
pub open spec fn one_name_per_symbol(m: Module) -> bool {
    forall|a: int, b: int|
        0 <= a < m.scoping.root_bindings@.len() && 0 <= b < m.scoping.root_bindings@.len()
            && (#[trigger] m.scoping.root_bindings@[a]).symbol == (#[trigger] m.scoping.root_bindings@[b]).symbol
            ==> m.scoping.root_bindings@[a].name@ == m.scoping.root_bindings@[b].name@
}

/// A well-formed module list: every module sits at its index and every
/// internal specifier resolves to one of the modules.
pub open spec fn modules_wf(t: Seq<Module>) -> bool {
    forall|i: int|
        0 <= i < t.len() ==> {
            &&& #[trigger] t[i].idx == i
            &&& forall|j: int|
                0 <= j < t[i].resolved_internal_specifiers@.len() ==> #[trigger] t[i].resolved_internal_specifiers@[j].1 < t.len()
        }
}


/// Registering the names `names` of module `x` leaves the rename of `k` as
/// it was when no candidate of the split has key `k`.
proof fn lemma_register_keeps(st: RenameState, t: Seq<Module>, x: ModuleIdx, names: Seq<Seq<char>>, k: SymbolRef)
    requires
        forall|j: int| 0 <= j < split_names(t[x as int], names).symbols.len() ==> (SymbolRef {
            owner: (#[trigger] split_names(t[x as int], names).symbols[j]).0,
            symbol: split_names(t[x as int], names).symbols[j].1,
        }) != k,
    ensures
        ({
            let sp = split_names(t[x as int], names);
            lookup_symbol(register_fallbacks(register_symbols(st, t, sp.symbols), t, x, sp.fallbacks).symbols, k)
                == lookup_symbol(st.symbols, k)
        }),
{
    let sp = split_names(t[x as int], names);
    lemma_register_symbols_other(st, t, sp.symbols, k);
    lemma_register_fallbacks_symbols(register_symbols(st, t, sp.symbols), t, x, sp.fallbacks);
}

/// Another module's registration leaves the renames of module `mi` alone.
proof fn lemma_other_module_keeps(st: RenameState, t: Seq<Module>, x: ModuleIdx, names: Seq<Seq<char>>, k: SymbolRef)
    requires
        modules_wf(t),
        x < t.len(),
        k.owner != x,
    ensures
        ({
            let sp = split_names(t[x as int], names);
            lookup_symbol(register_fallbacks(register_symbols(st, t, sp.symbols), t, x, sp.fallbacks).symbols, k)
                == lookup_symbol(st.symbols, k)
        }),
{
    lemma_split_candidates(t[x as int], names);
    assert(t[x as int].idx == x);
    lemma_register_keeps(st, t, x, names, k);
}

proof fn lemma_reexport_order_facts(t: Seq<Module>, entry: ModuleIdx, stmts: Seq<StatementSummary>)
    requires
        modules_wf(t),
        entry < t.len(),
    ensures
        reexport_order(t[entry as int], stmts).no_duplicates(),
        forall|i: int| 0 <= i < reexport_order(t[entry as int], stmts).len() ==> (#[trigger] reexport_order(t[entry as int], stmts)[i]) < t.len(),
    decreases stmts.len(),
{
    if stmts.len() > 0 {
        lemma_reexport_order_facts(t, entry, stmts.drop_last());
        let e = t[entry as int];
        let prev = reexport_order(e, stmts.drop_last());
        let st = stmts.last();
        if (st.kind == StatementKind::ExportNamed || st.kind == StatementKind::ExportAll) && st.source is Some {
            match resolve_internal(e, st.source->0@) {
                Some(mi) => {
                    crate::model::lemma_assoc_get_in(e.resolved_internal_specifiers@, st.source->0@);
                    let j = choose|j: int| 0 <= j < e.resolved_internal_specifiers@.len()
                        && e.resolved_internal_specifiers@[j].1 == mi && #[trigger] e.resolved_internal_specifiers@[j].0@ == st.source->0@;
                    assert(t[entry as int].idx == entry);
                    assert(t[entry as int].resolved_internal_specifiers@[j].1 < t.len());
                    if !prev.contains(mi) {
                        let cur = prev.push(mi);
                        assert forall|a: int, b: int| 0 <= a < cur.len() && 0 <= b < cur.len() && a != b implies cur[a] != cur[b] by {
                            if a == prev.len() as int {
                                assert(cur[b] == prev[b]);
                            } else if b == prev.len() as int {
                                assert(cur[a] == prev[a]);
                            } else {
                                assert(cur[a] == prev[a] && cur[b] == prev[b]);
                            }
                        }
                        assert forall|i: int| 0 <= i < cur.len() implies (#[trigger] cur[i]) < t.len() by {
                            if i < prev.len() {
                                assert(cur[i] == prev[i]);
                            }
                        }
                    }
                },
                None => {},
            }
        }
    }
}

proof fn lemma_pass_in_order_keeps(st0: RenameState, t: Seq<Module>, order: Seq<ModuleIdx>, k: SymbolRef)
    requires
        modules_wf(t),
        order.len() > 0,
        order.no_duplicates(),
        order[0] == k.owner,
        forall|i: int| 0 <= i < order.len() ==> (#[trigger] order[i]) < t.len(),
        lookup_symbol(register_exported(st0, t, order[0]).symbols, k) is None,
    ensures
        lookup_symbol(pass_in_order(st0, t, order).symbols, k) is None,
    decreases order.len(),
{
    if order.len() == 1 {
        assert(order.drop_last() =~= Seq::<ModuleIdx>::empty());
        assert(order.last() == order[0]);
    } else {
        let d = order.drop_last();
        assert(d[0] == order[0]);
        assert forall|a: int, b: int| 0 <= a < d.len() && 0 <= b < d.len() && a != b implies d[a] != d[b] by {
            assert(d[a] == order[a] && d[b] == order[b]);
        }
        assert forall|i: int| 0 <= i < d.len() implies (#[trigger] d[i]) < t.len() by {
            assert(d[i] == order[i]);
        }
        lemma_pass_in_order_keeps(st0, t, d, k);
        let x = order.last();
        assert(x == order[order.len() - 1]);
        assert(x != k.owner);
        lemma_other_module_keeps(pass_in_order(st0, t, d), t, x, exported_decl_names(t[x as int]), k);
    }
}

proof fn lemma_pass_rev_exported_keeps(st: RenameState, t: Seq<Module>, order: Seq<ModuleIdx>, c: nat, k: SymbolRef)
    requires
        modules_wf(t),
        c <= t.len(),
        order.contains(k.owner),
    ensures
        lookup_symbol(pass_rev_exported(st, t, order, c).symbols, k) == lookup_symbol(st.symbols, k),
    decreases c,
{
    if c > 0 {
        lemma_pass_rev_exported_keeps(st, t, order, (c - 1) as nat, k);
        let x = (t.len() - c) as ModuleIdx;
        if !order.contains(x) {
            lemma_other_module_keeps(pass_rev_exported(st, t, order, (c - 1) as nat), t, x, exported_decl_names(t[x as int]), k);
        }
    }
}

proof fn lemma_pass_rev_internal_keeps(st: RenameState, t: Seq<Module>, c: nat, k: SymbolRef, n: Seq<char>)
    requires
        modules_wf(t),
        c <= t.len(),
        k.owner < t.len(),
        one_name_per_symbol(t[k.owner as int]),
        exported_decl_names(t[k.owner as int]).contains(n),
        root_binding_of(t[k.owner as int].scoping.root_bindings@, n) == Some(k.symbol),
    ensures
        lookup_symbol(pass_rev_internal(st, t, c).symbols, k) == lookup_symbol(st.symbols, k),
    decreases c,
{
    if c > 0 {
        lemma_pass_rev_internal_keeps(st, t, (c - 1) as nat, k, n);
        let prev = pass_rev_internal(st, t, (c - 1) as nat);
        let x = (t.len() - c) as ModuleIdx;
        if x != k.owner {
            lemma_other_module_keeps(prev, t, x, internal_decl_names(t[x as int]), k);
        } else {
            let m = t[x as int];
            let names = internal_decl_names(m);
            lemma_split_candidates(m, names);
            let sp = split_names(m, names);
            assert forall|j: int| 0 <= j < sp.symbols.len() implies (SymbolRef { owner: (#[trigger] sp.symbols[j]).0, symbol: sp.symbols[j].1 }) != k by {
                let c2 = sp.symbols[j];
                if c2.1 == k.symbol {
                    let bs = m.scoping.root_bindings@;
                    lemma_root_binding_in(bs, c2.2);
                    lemma_root_binding_in(bs, n);
                    let a = choose|i: int| 0 <= i < bs.len() && (#[trigger] bs[i]).name@ == c2.2 && bs[i].symbol == c2.1;
                    let b = choose|i: int| 0 <= i < bs.len() && (#[trigger] bs[i]).name@ == n && bs[i].symbol == k.symbol;
                    assert(bs[a].symbol == bs[b].symbol);
                    assert(c2.2 == n);
                    lemma_remove_names_excludes(dedup_names(bare_statement_names(m.statements@)), exported_decl_names(m), c2.2);
                }
            }
            lemma_register_keeps(prev, t, x, names, k);
        }
    }
}

/// The module the entry re-exports from first.
pub open spec fn first_reexported(t: Seq<Module>, entry_idx: ModuleIdx) -> ModuleIdx {
    reexport_order(t[entry_idx as int], t[entry_idx as int].statements@)[0]
}

/// The symbols of the names a module exports by declaration that are
/// named by symbol (the candidates of its exported names).
pub open spec fn exported_candidates(m: Module) -> Seq<(ModuleIdx, SymbolId, Seq<char>)> {
    split_names(m, exported_decl_names(m)).symbols
}

/// Law: the first module the entry re-exports from claims its exported
/// declaration names first: when none of them is a reserved helper name,
/// none of its exported declarations is renamed, whatever the other
/// modules declare.
pub proof fn law_first_reexported_module_keeps_names(t: Seq<Module>, entry_idx: ModuleIdx)
    requires
        modules_wf(t),
        entry_idx < t.len(),
        reexport_order(t[entry_idx as int], t[entry_idx as int].statements@).len() > 0,
        one_name_per_symbol(t[first_reexported(t, entry_idx) as int]),
        forall|n: Seq<char>|
            exported_decl_names(t[first_reexported(t, entry_idx) as int]).contains(n)
                ==> !(#[trigger] reserve_from(Seq::empty(), t, t.len()).contains(n)),
    ensures
        forall|j: int|
            0 <= j < exported_candidates(t[first_reexported(t, entry_idx) as int]).len() ==> lookup_symbol(
                canonical_plan(t, entry_idx).symbols,
                SymbolRef { owner: first_reexported(t, entry_idx), symbol: (#[trigger] exported_candidates(t[first_reexported(t, entry_idx) as int])[j]).1 },
            ) is None,
{
    let order = reexport_order(t[entry_idx as int], t[entry_idx as int].statements@);
    lemma_reexport_order_facts(t, entry_idx, t[entry_idx as int].statements@);
    let mi = order[0];
    let m = t[mi as int];
    let names = exported_decl_names(m);
    let cands = exported_candidates(m);
    let st0 = RenameState { symbols: Seq::empty(), fallbacks: Seq::empty(), used: reserve_from(Seq::empty(), t, t.len()) };
    lemma_split_candidates(m, names);
    assert(names.no_duplicates()) by {
        lemma_dedup_no_duplicates(str_views(m.export_import_info.declared_export_names@));
        match default_decl_name(m) {
            Some(d) => lemma_push_new_no_dup_pub(dedup_names(str_views(m.export_import_info.declared_export_names@)), d),
            None => {},
        }
    }
    assert forall|j: int| 0 <= j < cands.len() implies !st0.used.contains(#[trigger] cands[j].2) by {
        assert(names.contains(cands[j].2));
    }
    lemma_register_fresh(st0, t, cands);
    lemma_register_fallbacks_symbols(register_symbols(st0, t, cands), t, mi, split_names(m, names).fallbacks);
    assert forall|j: int| 0 <= j < cands.len() implies lookup_symbol(
        canonical_plan(t, entry_idx).symbols,
        SymbolRef { owner: mi, symbol: (#[trigger] cands[j]).1 },
    ) is None by {
        let k = SymbolRef { owner: mi, symbol: cands[j].1 };
        assert(register_exported(st0, t, mi).symbols == Seq::<(SymbolRef, Seq<char>)>::empty());
        lemma_pass_in_order_keeps(st0, t, order, k);
        let s1 = pass_in_order(st0, t, order);
        assert(order.contains(mi)) by {
            assert(order[0] == mi);
        }
        lemma_pass_rev_exported_keeps(s1, t, order, t.len(), k);
        let s2 = pass_rev_exported(s1, t, order, t.len());
        assert(root_binding_of(m.scoping.root_bindings@, cands[j].2) == Some(cands[j].1));
        lemma_pass_rev_internal_keeps(s2, t, t.len(), k, cands[j].2);
    }
}


/// The warning for a name-based rename of `name` in the module at `path`.
pub open spec fn fallback_warning(name: Seq<char>, path: Seq<char>, renamed: Seq<char>) -> Seq<char> {
    "typack/rename-fallback: used fallback rename for \""@ + name + "\" in "@ + path + " -> \""@ + renamed + "\""@
}

/// The warnings for the name-based renames `fs`, in order (renames of
/// modules outside the table give none).
pub open spec fn fallback_warnings(fs: Seq<((ModuleIdx, Seq<char>), Seq<char>)>, t: Seq<Module>) -> Seq<Seq<char>>
    decreases fs.len(),
{
    if fs.len() == 0 {
        Seq::empty()
    } else {
        let prev = fallback_warnings(fs.drop_last(), t);
        let e = fs.last();
        if e.0.0 < t.len() { prev.push(fallback_warning(e.0.1, t[e.0.0 as int].path@, e.1)) } else { prev }
    }
}

/// The link stage's warnings: one for every name-based rename.
pub fn collect_link_warnings(canonical_names: &CanonicalNames, table: &ModuleTable) -> (r: Vec<String>)
    ensures
        str_views(r@) == fallback_warnings(canonical_names@.fallbacks, table.modules@),
{
    let ghost fs = canonical_names@.fallbacks;
    let mut out: Vec<String> = Vec::new();
    let mut i: usize = 0;
    assert(str_views(out@) =~= Seq::<Seq<char>>::empty());
    while i < canonical_names.fallback_name_renames.len()
        invariant
            0 <= i <= fs.len(),
            fs == canonical_names@.fallbacks,
            fs.len() == canonical_names.fallback_name_renames@.len(),
            str_views(out@) == fallback_warnings(fs.take(i as int), table.modules@),
        decreases fs.len() - i,
    {
        let e = &canonical_names.fallback_name_renames[i];
        proof {
            assert(fs.take(i + 1).drop_last() =~= fs.take(i as int));
            assert(fs[i as int] == ((e.0.0, e.0.1@), e.1@));
        }
        let mi = (e.0).0;
        if mi < table.modules.len() {
            let mut msg = String::new();
            proof {
                reveal_strlit("typack/rename-fallback: used fallback rename for \"");
                reveal_strlit("\" in ");
                reveal_strlit(" -> \"");
                reveal_strlit("\"");
            }
            push_str(&mut msg, "typack/rename-fallback: used fallback rename for \"");
            push_str(&mut msg, (e.0).1.as_str());
            push_str(&mut msg, "\" in ");
            push_str(&mut msg, table.modules[mi].path.as_str());
            push_str(&mut msg, " -> \"");
            push_str(&mut msg, e.1.as_str());
            push_str(&mut msg, "\"");
            let ghost before = str_views(out@);
            assert(msg@ =~= fallback_warning(e.0.1@, table.modules@[mi as int].path@, e.1@));
            out.push(msg);
            assert(str_views(out@) =~= before.push(fallback_warning(e.0.1@, table.modules@[mi as int].path@, e.1@)));
        }
        i += 1;
    }
    assert(fs.take(i as int) =~= fs);
    out
}

} // verus!
