//! Data types of the link stage.

use vstd::prelude::*;

verus! {

/// What to do with each statement during the transform phase.
#[derive(Debug, Clone, Copy, PartialEq, Eq, Structural)]
pub enum StatementAction {
    /// Skip the statement (tree-shaken, metadata only, or an internal import).
    Skip,
    /// Include the statement as is.
    Include,
    /// Take the inner declaration out of an `export` and add `declare`.
    UnwrapExportDeclaration,
    /// Turn an `export default` declaration into a named declaration.
    UnwrapExportDefault,
}

/// An exported name with optional rename info.
pub struct ExportedName {
    /// The local name (used in the declaration).
    pub local: String,
    /// The exported name (used in the export statement).
    pub exported: String,
    /// Whether the specifier carries the `type` modifier.
    pub is_type_only: bool,
}

impl View for ExportedName {
    /// `(local, exported, is_type_only)`.
    type V = (Seq<char>, Seq<char>, bool);

    open spec fn view(&self) -> (Seq<char>, Seq<char>, bool) {
        (self.local@, self.exported@, self.is_type_only)
    }
}

/// The kind of an import specifier, as the contracts see it.
pub enum KindView {
    Default,
    Namespace,
    Named(Seq<char>),
}

impl KindView {
    /// The key by which specifiers are ordered and told apart: the imported
    /// name, `default` for a default import and `*` for a namespace import.
    pub open spec fn key(self) -> Seq<char> {
        match self {
            KindView::Default => "default"@,
            KindView::Namespace => "*"@,
            KindView::Named(n) => n,
        }
    }
}

/// What an external import specifier binds.
pub enum ImportSpecifierKind {
    /// `import X from "..."`.
    Default,
    /// `import * as X from "..."`.
    Namespace,
    /// `import { imported as X } from "..."`, holding the imported name.
    Named(String),
}

impl View for ImportSpecifierKind {
    type V = KindView;

    open spec fn view(&self) -> KindView {
        match self {
            ImportSpecifierKind::Default => KindView::Default,
            ImportSpecifierKind::Namespace => KindView::Namespace,
            ImportSpecifierKind::Named(n) => KindView::Named(n@),
        }
    }
}

impl ImportSpecifierKind {
    /// The ordering key of the specifier kind.
    pub fn sort_key(&self) -> (r: &str)
        ensures
            r@ == self@.key(),
    {
        match self {
            ImportSpecifierKind::Default => "default",
            ImportSpecifierKind::Namespace => "*",
            ImportSpecifierKind::Named(n) => n.as_str(),
        }
    }
}

/// One specifier of an external import.
pub struct ImportSpecifier {
    /// The local binding name.
    pub local: String,
    pub kind: ImportSpecifierKind,
}

/// A specifier as the contracts see it.
pub struct SpecifierView {
    pub local: Seq<char>,
    pub kind: KindView,
}

impl View for ImportSpecifier {
    type V = SpecifierView;

    open spec fn view(&self) -> SpecifierView {
        SpecifierView { local: self.local@, kind: self.kind@ }
    }
}

/// The views of a sequence of specifiers.
pub open spec fn specifier_views(s: Seq<ImportSpecifier>) -> Seq<SpecifierView> {
    s.map_values(|x: ImportSpecifier| x@)
}

/// An import of an external module kept in the bundle.
pub struct ExternalImport {
    /// The module specifier, e.g. `react`.
    pub source: String,
    pub specifiers: Vec<ImportSpecifier>,
    /// Whether the import is `import type`.
    pub is_type_only: bool,
    /// Whether the import only runs the module (`import "x";`).
    pub side_effect_only: bool,
    /// Whether the import stands for a re-export.
    pub from_reexport: bool,
}

/// An external import as the contracts see it.
pub struct ImportView {
    pub source: Seq<char>,
    pub specifiers: Seq<SpecifierView>,
    pub is_type_only: bool,
    pub side_effect_only: bool,
    pub from_reexport: bool,
}

impl View for ExternalImport {
    type V = ImportView;

    open spec fn view(&self) -> ImportView {
        ImportView {
            source: self.source@,
            specifiers: specifier_views(self.specifiers@),
            is_type_only: self.is_type_only,
            side_effect_only: self.side_effect_only,
            from_reexport: self.from_reexport,
        }
    }
}

/// The views of a sequence of external imports.
pub open spec fn import_views(s: Seq<ExternalImport>) -> Seq<ImportView> {
    s.map_values(|x: ExternalImport| x@)
}

/// Info for creating a namespace wrapper around a module.
pub struct NamespaceWrapInfo {
    /// The namespace name, e.g. `foo_d_exports`.
    pub namespace_name: String,
    /// Exported names of the wrapped module.
    pub export_names: Vec<ExportedName>,
}

impl View for NamespaceWrapInfo {
    /// `(namespace_name, export_names)`.
    type V = (Seq<char>, Seq<(Seq<char>, Seq<char>, bool)>);

    open spec fn view(&self) -> (Seq<char>, Seq<(Seq<char>, Seq<char>, bool)>) {
        (self.namespace_name@, self.export_names@.map_values(|e: ExportedName| e@))
    }
}

/// The views of a module-keyed list of namespace wrappers.
pub open spec fn wrap_views(v: Seq<(usize, NamespaceWrapInfo)>) -> Seq<(usize, (Seq<char>, Seq<(Seq<char>, Seq<char>, bool)>))> {
    v.map_values(|e: (usize, NamespaceWrapInfo)| (e.0, e.1@))
}

} // verus!
