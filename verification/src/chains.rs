//! Re-export chains that run longer than the table has export entries go
//! round a cycle and never end.

use vstd::prelude::*;
use vstd::set_lib::{lemma_int_range, lemma_len_subset, set_int_range};

use crate::exports::{external_source_within, reexport_chain_ends};
use crate::model::{assoc_get, resolve_internal, ExportEntry, ExportSource, Module};

verus! {

/// The next step of a re-export chain at exported name `name` of module
/// `m`: the module and name an `export { .. } from` entry forwards to, when
/// it forwards to a module of the table.
pub open spec fn chain_next(t: Seq<Module>, m: int, name: Seq<char>) -> Option<(int, Seq<char>)> {
    if m < 0 || m >= t.len() {
        None
    } else {
        match assoc_get(t[m].export_import_info.named_exports@, name) {
            Some(entry) => match entry.source {
                ExportSource::SourceReexport { specifier, imported_name } => match resolve_internal(t[m], specifier@) {
                    Some(target) => Some((target as int, imported_name@)),
                    None => None,
                },
                _ => None,
            },
            None => None,
        }
    }
}

/// Where the chain from (`m`, `name`) stands after `k` forwarding steps, if
/// it gets that far.
pub open spec fn chain_at(t: Seq<Module>, m: int, name: Seq<char>, k: nat) -> Option<(int, Seq<char>)>
    decreases k,
{
    if k == 0 {
        Some((m, name))
    } else {
        match chain_at(t, m, name, (k - 1) as nat) {
            Some(s) => chain_next(t, s.0, s.1),
            None => None,
        }
    }
}

/// The number of named export entries of the first `m` modules.
pub open spec fn entries_before(t: Seq<Module>, m: int) -> nat
    decreases m,
{
    if m <= 0 || m > t.len() {
        0
    } else {
        entries_before(t, m - 1) + t[m - 1].export_import_info.named_exports@.len()
    }
}

/// The position of the first entry with key `k`.
pub open spec fn key_pos(s: Seq<(String, ExportEntry)>, k: Seq<char>) -> int
    decreases s.len(),
{
    if s.len() == 0 || s[0].0@ == k {
        0
    } else {
        1 + key_pos(s.drop_first(), k)
    }
}

proof fn lemma_key_pos(s: Seq<(String, ExportEntry)>, k: Seq<char>)
    requires
        assoc_get(s, k) is Some,
    ensures
        0 <= key_pos(s, k) < s.len(),
        s[key_pos(s, k)].0@ == k,
    decreases s.len(),
{
    if s[0].0@ != k {
        lemma_key_pos(s.drop_first(), k);
    }
}

/// A number for each chain state that goes on forwarding, below the number
/// of export entries of the table, and different for different states.
pub open spec fn state_number(t: Seq<Module>, m: int, name: Seq<char>) -> int {
    entries_before(t, m) + key_pos(t[m].export_import_info.named_exports@, name)
}

proof fn lemma_entries_before_mono(t: Seq<Module>, a: int, b: int)
    requires
        0 <= a <= b <= t.len(),
    ensures
        entries_before(t, a) <= entries_before(t, b),
    decreases b - a,
{
    if a < b {
        lemma_entries_before_mono(t, a, b - 1);
    }
}

proof fn lemma_state_number(t: Seq<Module>, m: int, name: Seq<char>)
    requires
        chain_next(t, m, name) is Some,
    ensures
        0 <= m < t.len(),
        entries_before(t, m) <= state_number(t, m, name) < entries_before(t, m + 1),
        entries_before(t, m + 1) <= entries_before(t, t.len() as int),
        t[m].export_import_info.named_exports@[key_pos(t[m].export_import_info.named_exports@, name)].0@ == name,
{
    lemma_key_pos(t[m].export_import_info.named_exports@, name);
    lemma_entries_before_mono(t, m + 1, t.len() as int);
}

proof fn lemma_state_number_injective(t: Seq<Module>, m1: int, n1: Seq<char>, m2: int, n2: Seq<char>)
    requires
        chain_next(t, m1, n1) is Some,
        chain_next(t, m2, n2) is Some,
        state_number(t, m1, n1) == state_number(t, m2, n2),
    ensures
        m1 == m2,
        n1 == n2,
{
    lemma_state_number(t, m1, n1);
    lemma_state_number(t, m2, n2);
    if m1 < m2 {
        lemma_entries_before_mono(t, m1 + 1, m2);
    } else if m2 < m1 {
        lemma_entries_before_mono(t, m2 + 1, m1);
    }
}

proof fn lemma_chain_stops(t: Seq<Module>, m: int, name: Seq<char>, k: nat, j: nat)
    requires
        chain_at(t, m, name, k) is None,
        k <= j,
    ensures
        chain_at(t, m, name, j) is None,
    decreases j - k,
{
    if k < j {
        lemma_chain_stops(t, m, name, k, (j - 1) as nat);
    }
}

proof fn lemma_chain_at_shift(t: Seq<Module>, m: int, name: Seq<char>, k: nat)
    requires
        chain_next(t, m, name) is Some,
    ensures
        chain_at(t, m, name, k + 1) == chain_at(t, (chain_next(t, m, name)->0).0, (chain_next(t, m, name)->0).1, k),
    decreases k,
{
    reveal_with_fuel(chain_at, 2);
    if k > 0 {
        lemma_chain_at_shift(t, m, name, (k - 1) as nat);
    }
}

/// A chain runs out of fuel exactly when it can take that many steps.
proof fn lemma_fuel_runs_out(t: Seq<Module>, m: int, name: Seq<char>, f: nat)
    ensures
        external_source_within(t, m, name, f).is_none() == (chain_at(t, m, name, f) is Some),
    decreases f,
{
    if f > 0 {
        match chain_next(t, m, name) {
            Some(n) => {
                lemma_fuel_runs_out(t, n.0, n.1, (f - 1) as nat);
                lemma_chain_at_shift(t, m, name, (f - 1) as nat);
            },
            None => {
                assert(chain_at(t, m, name, 1) is None) by {
                    reveal_with_fuel(chain_at, 2);
                }
                lemma_chain_stops(t, m, name, 1, f);
            },
        }
    }
}

proof fn lemma_pigeonhole(s: Seq<int>, n: int)
    requires
        0 <= n < s.len(),
        forall|i: int| 0 <= i < s.len() ==> 0 <= #[trigger] s[i] < n,
    ensures
        exists|i: int, j: int| 0 <= i < j < s.len() && s[i] == s[j],
{
    if !exists|i: int, j: int| 0 <= i < j < s.len() && s[i] == s[j] {
        assert(s.no_duplicates()) by {
            assert forall|i: int, j: int| 0 <= i < s.len() && 0 <= j < s.len() && i != j implies s[i] != s[j] by {
                if i < j {
                    assert(!(s[i] == s[j]));
                } else {
                    assert(!(s[j] == s[i]));
                }
            }
        }
        s.unique_seq_to_set();
        lemma_int_range(0, n);
        assert(s.to_set().subset_of(set_int_range(0, n)));
        lemma_len_subset(s.to_set(), set_int_range(0, n));
    }
}

proof fn lemma_chain_repeats(t: Seq<Module>, m: int, name: Seq<char>, i: nat, j: nat, n: nat)
    requires
        chain_at(t, m, name, i) == chain_at(t, m, name, j),
    ensures
        chain_at(t, m, name, i + n) == chain_at(t, m, name, j + n),
    decreases n,
{
    if n > 0 {
        lemma_chain_repeats(t, m, name, i, j, (n - 1) as nat);
        assert(chain_at(t, m, name, i + n) == match chain_at(t, m, name, (i + n - 1) as nat) {
            Some(s) => chain_next(t, s.0, s.1),
            None => None,
        });
        assert(chain_at(t, m, name, j + n) == match chain_at(t, m, name, (j + n - 1) as nat) {
            Some(s) => chain_next(t, s.0, s.1),
            None => None,
        });
    }
}

proof fn lemma_chain_forever(t: Seq<Module>, m: int, name: Seq<char>, b: nat, i: nat, j: nat, k: nat)
    requires
        i < j <= b,
        chain_at(t, m, name, i) == chain_at(t, m, name, j),
        forall|q: nat| q <= b ==> #[trigger] chain_at(t, m, name, q) is Some,
    ensures
        chain_at(t, m, name, k) is Some,
    decreases k,
{
    if k > b {
        let n = (k - j) as nat;
        lemma_chain_repeats(t, m, name, i, j, n);
        lemma_chain_forever(t, m, name, b, i, j, (i + n) as nat);
    } else {
        assert(chain_at(t, m, name, k) is Some);
    }
}

/// A re-export chain that does not end within more steps than the table
/// has named export entries never ends: it has gone round a cycle.
pub proof fn law_long_chains_never_end(t: Seq<Module>, m: int, name: Seq<char>, fuel: nat)
    requires
        external_source_within(t, m, name, fuel) is None,
        fuel > entries_before(t, t.len() as int),
    ensures
        !reexport_chain_ends(t, m, name),
{
    let e = entries_before(t, t.len() as int);
    lemma_fuel_runs_out(t, m, name, fuel);
    assert forall|q: nat| q <= fuel implies #[trigger] chain_at(t, m, name, q) is Some by {
        if chain_at(t, m, name, q) is None {
            lemma_chain_stops(t, m, name, q, fuel);
        }
    }
    assert forall|q: nat| q < fuel implies #[trigger] chain_next(t, (chain_at(t, m, name, q)->0).0, (chain_at(t, m, name, q)->0).1) is Some by {
        assert(chain_at(t, m, name, q + 1) is Some);
    }
    let nums = Seq::new(
        (e + 1) as nat,
        |q: int| state_number(t, (chain_at(t, m, name, q as nat)->0).0, (chain_at(t, m, name, q as nat)->0).1),
    );
    assert forall|q: int| 0 <= q < nums.len() implies 0 <= #[trigger] nums[q] < e by {
        let s = chain_at(t, m, name, q as nat)->0;
        assert(chain_next(t, s.0, s.1) is Some);
        lemma_state_number(t, s.0, s.1);
    }
    lemma_pigeonhole(nums, e as int);
    let (i, j) = choose|i: int, j: int| 0 <= i < j < nums.len() && nums[i] == nums[j];
    let si = chain_at(t, m, name, i as nat)->0;
    let sj = chain_at(t, m, name, j as nat)->0;
    assert(chain_next(t, si.0, si.1) is Some);
    assert(chain_next(t, sj.0, sj.1) is Some);
    assert(nums[i] == state_number(t, si.0, si.1));
    assert(nums[j] == state_number(t, sj.0, sj.1));
    lemma_state_number_injective(t, si.0, si.1, sj.0, sj.1);
    assert(chain_at(t, m, name, i as nat) == chain_at(t, m, name, j as nat));
    assert forall|f: nat| !(#[trigger] external_source_within(t, m, name, f)).is_some() by {
        lemma_chain_forever(t, m, name, fuel, i as nat, j as nat, f);
        lemma_fuel_runs_out(t, m, name, f);
    }
}

} // verus!
