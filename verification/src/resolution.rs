//! What a module specifier becomes once the resolver has looked it up:
//! an internal module, an external one, or a skipped asset.

use vstd::prelude::*;

use crate::paths::{comp_text, components, file_name, law_typescript_files, name_extension, is_non_ts_asset, is_non_ts_asset_spec, is_relative_specifier, should_bundle_resolved_target, should_bundle_spec};
use crate::rename::{contains_name, str_views};
use crate::text::{has_suffix, push_str, str_eq, string_clone};

verus! {

/// Why a specifier is left external.
#[derive(Clone, Copy, PartialEq, Eq, Structural)]
pub enum ExternalReason {
    /// It resolved to a file that is not bundled.
    ResolvedExternal,
    /// A bare specifier that did not resolve.
    UnresolvedBare,
    /// It is forced external and did not resolve.
    ForcedExternal,
    /// It is forced external although it resolved.
    ForcedExternalOverrideResolved,
}

/// What a specifier becomes.
pub enum ResolvedSpecifier {
    /// A module of the bundle, at this path.
    Internal(String),
    External(ExternalReason),
    /// A non-TypeScript asset (CSS, images, ...), dropped from the graph.
    Skipped,
}

/// `ResolvedSpecifier` as the contracts see it.
pub enum ResolvedView {
    Internal(Seq<char>),
    External(ExternalReason),
    Skipped,
}

impl View for ResolvedSpecifier {
    type V = ResolvedView;

    open spec fn view(&self) -> ResolvedView {
        match self {
            ResolvedSpecifier::Internal(p) => ResolvedView::Internal(p@),
            ResolvedSpecifier::External(r) => ResolvedView::External(*r),
            ResolvedSpecifier::Skipped => ResolvedView::Skipped,
        }
    }
}

/// A specifier starting with `.` or `/`.
pub open spec fn is_relative_spec(specifier: Seq<char>) -> bool {
    specifier.len() > 0 && (specifier[0] == '.' || specifier[0] == '/')
}

/// The decision for `specifier` of `importer`, given what the resolver gave
/// (`Ok(path)` or `Err(error text)`): a forced-external specifier stays
/// external; a resolved one is internal when it is to be bundled; an
/// unresolved relative asset is skipped, any other unresolved relative
/// specifier is an error, and an unresolved bare one stays external.
pub open spec fn resolution_decision(
    importer: Seq<char>,
    specifier: Seq<char>,
    forced: Seq<Seq<char>>,
    explicit: Seq<Seq<char>>,
    resolution: Result<Seq<char>, Seq<char>>,
) -> Result<ResolvedView, Seq<char>> {
    if forced.contains(specifier) {
        Ok(ResolvedView::External(
            if resolution is Ok { ExternalReason::ForcedExternalOverrideResolved } else { ExternalReason::ForcedExternal },
        ))
    } else {
        match resolution {
            Ok(p) => if should_bundle_spec(p, explicit) {
                Ok(ResolvedView::Internal(p))
            } else {
                Ok(ResolvedView::External(ExternalReason::ResolvedExternal))
            },
            Err(e) => if is_relative_spec(specifier) && is_non_ts_asset_spec(specifier) {
                Ok(ResolvedView::Skipped)
            } else if is_relative_spec(specifier) {
                Err("Cannot resolve relative specifier \""@ + specifier + "\" from "@ + importer + ": "@ + e)
            } else {
                Ok(ResolvedView::External(ExternalReason::UnresolvedBare))
            },
        }
    }
}

/// Law (TypeScript targets are bundled): a specifier that is not forced
/// external and resolves to a TypeScript file (its file name ends in
/// `.d.ts`, `.d.mts` or `.d.cts`, or its extension is `ts`, `mts`, `cts` or
/// `tsx`) outside `node_modules` is internal, bundled from that path.
pub proof fn law_typescript_targets_bundled(
    importer: Seq<char>,
    specifier: Seq<char>,
    forced: Seq<Seq<char>>,
    explicit: Seq<Seq<char>>,
    target: Seq<char>,
)
    requires
        !forced.contains(specifier),
        file_name(target) matches Some(n) && (has_suffix(n, ".d.ts"@) || has_suffix(n, ".d.mts"@) || has_suffix(
            n,
            ".d.cts"@,
        ) || name_extension(n) == Some("ts"@) || name_extension(n) == Some("mts"@) || name_extension(n) == Some(
            "cts"@,
        ) || name_extension(n) == Some("tsx"@)),
        forall|i: int| 0 <= i < components(target).len() ==> comp_text(#[trigger] components(target)[i]) != "node_modules"@,
    ensures
        resolution_decision(importer, specifier, forced, explicit, Ok(target)) == Ok::<ResolvedView, Seq<char>>(
            ResolvedView::Internal(target),
        ),
{
    law_typescript_files(target);
    reveal_strlit("node_modules");
    assert("node_modules"@ =~= seq!['n', 'o', 'd', 'e', '_', 'm', 'o', 'd', 'u', 'l', 'e', 's']);
}

/// Decides what `specifier`, imported by `importer_path`, becomes, given the
/// resolver's answer for it (`Ok(path)` or `Err(error text)`).
pub fn resolve_specifier_for_scan(
    importer_path: &str,
    specifier: &str,
    forced_external: &Vec<String>,
    explicit_internal_paths: &Vec<String>,
    resolution: Result<String, String>,
) -> (r: Result<ResolvedSpecifier, String>)
    ensures
        resolution_decision(
            importer_path@,
            specifier@,
            str_views(forced_external@),
            str_views(explicit_internal_paths@),
            match resolution {
                Ok(p) => Ok(p@),
                Err(e) => Err(e@),
            },
        ) == match r {
            Ok(x) => Ok(x@),
            Err(m) => Err(m@),
        },
{
    if contains_name(forced_external, specifier) {
        let reason = match resolution {
            Ok(_) => ExternalReason::ForcedExternalOverrideResolved,
            Err(_) => ExternalReason::ForcedExternal,
        };
        return Ok(ResolvedSpecifier::External(reason));
    }
    match resolution {
        Ok(path) => {
            if should_bundle_resolved_target(path.as_str(), explicit_internal_paths) {
                Ok(ResolvedSpecifier::Internal(path))
            } else {
                Ok(ResolvedSpecifier::External(ExternalReason::ResolvedExternal))
            }
        },
        Err(error) => {
            let relative = is_relative_specifier(specifier);
            if relative && is_non_ts_asset(specifier) {
                return Ok(ResolvedSpecifier::Skipped);
            }
            if relative {
                let mut msg = String::new();
                push_str(&mut msg, "Cannot resolve relative specifier \"");
                push_str(&mut msg, specifier);
                push_str(&mut msg, "\" from ");
                push_str(&mut msg, importer_path);
                push_str(&mut msg, ": ");
                push_str(&mut msg, error.as_str());
                Err(msg)
            } else {
                Ok(ResolvedSpecifier::External(ExternalReason::UnresolvedBare))
            }
        },
    }
}

/// The warning code and message for an externalized specifier, if it gets one.
pub open spec fn resolution_warning(importer: Seq<char>, specifier: Seq<char>, reason: ExternalReason) -> Option<(Seq<char>, Seq<char>)> {
    match reason {
        ExternalReason::UnresolvedBare => Some((
            "typack/externalized-bare-unresolved"@,
            "typack/externalized-bare-unresolved: externalized unresolved bare specifier \""@ + specifier
                + "\" from "@ + importer,
        )),
        ExternalReason::ForcedExternalOverrideResolved => Some((
            "typack/forced-external-override"@,
            "typack/forced-external-override: force-external override for \""@ + specifier + "\" from "@
                + importer + " despite successful resolution"@,
        )),
        _ => None,
    }
}

/// The views of the warning keys seen.
pub open spec fn key_views(v: Seq<(String, String, String)>) -> Seq<(Seq<char>, Seq<char>, Seq<char>)> {
    v.map_values(|k: (String, String, String)| (k.0@, k.1@, k.2@))
}

/// Adds the warning for an externalized specifier, once per code, importer
/// and specifier.
pub fn maybe_push_resolution_warning(
    warnings: &mut Vec<String>,
    warning_dedup: &mut Vec<(String, String, String)>,
    importer_path: &str,
    specifier: &str,
    reason: ExternalReason,
)
    ensures
        match resolution_warning(importer_path@, specifier@, reason) {
            Some((code, message)) => {
                let key = (code, importer_path@, specifier@);
                if key_views(old(warning_dedup)@).contains(key) {
                    &&& final(warnings)@ == old(warnings)@
                    &&& final(warning_dedup)@ == old(warning_dedup)@
                } else {
                    &&& str_views(final(warnings)@) == str_views(old(warnings)@).push(message)
                    &&& key_views(final(warning_dedup)@) == key_views(old(warning_dedup)@).push(key)
                }
            },
            None => final(warnings)@ == old(warnings)@ && final(warning_dedup)@ == old(warning_dedup)@,
        },
{
    let mut message = String::new();
    let code = match reason {
        ExternalReason::UnresolvedBare => {
            push_str(&mut message, "typack/externalized-bare-unresolved: externalized unresolved bare specifier \"");
            push_str(&mut message, specifier);
            push_str(&mut message, "\" from ");
            push_str(&mut message, importer_path);
            "typack/externalized-bare-unresolved"
        },
        ExternalReason::ForcedExternalOverrideResolved => {
            push_str(&mut message, "typack/forced-external-override: force-external override for \"");
            push_str(&mut message, specifier);
            push_str(&mut message, "\" from ");
            push_str(&mut message, importer_path);
            push_str(&mut message, " despite successful resolution");
            "typack/forced-external-override"
        },
        _ => return,
    };
    let ghost kv = key_views(warning_dedup@);
    let ghost key = (code@, importer_path@, specifier@);
    assert(resolution_warning(importer_path@, specifier@, reason) == Some((code@, message@)));
    let mut i: usize = 0;
    while i < warning_dedup.len()
        invariant
            0 <= i <= kv.len(),
            kv == key_views(warning_dedup@),
            key == (code@, importer_path@, specifier@),
            resolution_warning(importer_path@, specifier@, reason) == Some((code@, message@)),
            warnings@ == old(warnings)@,
            warning_dedup@ == old(warning_dedup)@,
            forall|j: int| 0 <= j < i ==> kv[j] != key,
        decreases kv.len() - i,
    {
        let k = &warning_dedup[i];
        assert(kv[i as int] == (k.0@, k.1@, k.2@));
        if str_eq(k.0.as_str(), code) && str_eq(k.1.as_str(), importer_path) && str_eq(k.2.as_str(), specifier) {
            assert(kv[i as int] == key);
            assert(kv.contains(key));
            return;
        }
        i += 1;
    }
    let ghost wb = warnings@;
    let ghost db = warning_dedup@;
    warning_dedup.push((string_clone(code), string_clone(importer_path), string_clone(specifier)));
    warnings.push(message);
    assert(key_views(warning_dedup@) =~= key_views(db).push(key));
    assert(str_views(warnings@) =~= str_views(wb).push(message@));
}

} // verus!
