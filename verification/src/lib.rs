//! A TypeScript declaration (`.d.ts`) bundler core: module-graph analysis,
//! export resolution, name deconfliction and output assembly, with
//! machine-checked contracts.

pub mod analysis;
pub mod chains;
pub mod discover;
pub mod assemble;
pub mod comments;
pub mod emit;
pub mod exports;
pub mod flags;
pub mod graph;
pub mod import_fixup;
pub mod inputs;
pub mod link_types;
pub mod model;
pub mod module_meta;
pub mod namespace;
pub mod needed_names;
pub mod options;
pub mod parse;
pub mod text;
pub mod paths;
pub mod rename;
pub mod rewrite;
pub mod resolution;
pub mod resolved_exports;
pub mod scan_info;
pub mod sourcemap;
pub mod sourcemap_io;
pub mod tsconfig;
