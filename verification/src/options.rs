//! Configuration options for the bundler and its result records.

use vstd::prelude::*;

verus! {

/// Options for the declaration bundler.
pub struct TypackOptions {
    /// Entry module paths to bundle.
    pub input: Vec<String>,
    /// Module specifiers to keep as external imports.
    pub external: Vec<String>,
    /// Working directory; region marker paths are relative to it.
    pub cwd: String,
    /// Generate a source map (`.d.ts.map`).
    pub sourcemap: bool,
    /// Emit `export =` for a single default export.
    pub cjs_default: bool,
}

impl Default for TypackOptions {
    fn default() -> (r: Self)
        ensures
            r.input@.len() == 0,
            r.external@.len() == 0,
            r.cwd@ == seq!['.'],
            !r.sourcemap,
            !r.cjs_default,
    {
        let cwd = ".";
        proof {
            reveal_strlit(".");
        }
        let r = TypackOptions {
            input: Vec::new(),
            external: Vec::new(),
            cwd: crate::text::string_clone(cwd),
            sourcemap: false,
            cjs_default: false,
        };
        assert(r.cwd@ =~= seq!['.']);
        r
    }
}

/// Convenience entry point of the bundling pipeline.
pub struct TypackBundler;

/// Options of one bundling request, as a host binding receives them.
pub struct BundleDtsOptions {
    pub input: Vec<String>,
    pub external: Option<Vec<String>>,
    pub cwd: Option<String>,
    pub sourcemap: Option<bool>,
    pub cjs_default: Option<bool>,
}

/// A diagnostic as reported to a host binding.
pub struct BundleDtsDiagnostic {
    pub message: String,
    pub file: Option<String>,
    pub span: Option<Vec<u32>>,
    pub severity: String,
}

impl BundleDtsOptions {
    /// The bundler options of a host request: absent settings take their
    /// defaults (no externals, working directory `.`, no source map, no
    /// `export =`).
    pub fn into_typack_options(self) -> (r: TypackOptions)
        ensures
            r.input@ == self.input@,
            r.external@ == match self.external { Some(v) => v@, None => Seq::<String>::empty() },
            r.cwd@ == match self.cwd { Some(c) => c@, None => seq!['.'] },
            r.sourcemap == match self.sourcemap { Some(b) => b, None => false },
            r.cjs_default == match self.cjs_default { Some(b) => b, None => false },
    {
        let external = match self.external {
            Some(v) => v,
            None => Vec::new(),
        };
        let cwd = match self.cwd {
            Some(c) => c,
            None => {
                proof {
                    reveal_strlit(".");
                }
                crate::text::string_clone(".")
            },
        };
        let sourcemap = match self.sourcemap {
            Some(b) => b,
            None => false,
        };
        let cjs_default = match self.cjs_default {
            Some(b) => b,
            None => false,
        };
        TypackOptions { input: self.input, external, cwd, sourcemap, cjs_default }
    }
}

impl BundleDtsDiagnostic {
    /// A diagnostic of the given message, without file or span, with
    /// severity `error` or `warning`.
    pub fn from_message(message: String, is_error: bool) -> (r: Self)
        ensures
            r.message@ == message@,
            r.file is None,
            r.span is None,
            r.severity@ == if is_error { "error"@ } else { "warning"@ },
    {
        proof {
            reveal_strlit("error");
            reveal_strlit("warning");
        }
        let severity = if is_error { crate::text::string_clone("error") } else { crate::text::string_clone("warning") };
        BundleDtsDiagnostic { message, file: None, span: None, severity }
    }
}

/// One bundled output as reported to a host binding.
pub struct BundleDtsOutput {
    pub code: String,
    pub map: Option<String>,
}

/// The result of a bundling request as reported to a host binding.
pub struct BundleDtsResult {
    pub outputs: Vec<BundleDtsOutput>,
    pub warnings: Vec<BundleDtsDiagnostic>,
}

} // verus!
