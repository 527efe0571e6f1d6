//! Output assembly for one entry: the directives, the merged external
//! imports, the kept star exports, the namespace wrappers and the rendered
//! modules are joined into the bundle's text, which ends with the export
//! statement.

use vstd::prelude::*;

use crate::analysis::{ExternalStarExport, GenerateAcc};
use crate::emit::{ExportView, export_statement, export_views, external_imports_text, merge_imports, render_imports, with_sorted_specifiers, write_export_statement, write_external_imports};
use crate::link_types::{ExportedName, ImportView, NamespaceWrapInfo, import_views};
use crate::rename::str_views;
use crate::text::{count_char, count_newlines, push_str, str_chars, str_eq, string_clone, string_push};

verus! {

/// `n`, capped at `u32::MAX`.
pub open spec fn sat_u32(n: nat) -> nat {
    if n > u32::MAX {
        u32::MAX as nat
    } else {
        n
    }
}

/// Occurrences of a character in a concatenation add up.
pub proof fn lemma_count_char_concat(a: Seq<char>, b: Seq<char>, c: char)
    ensures
        count_char(a + b, c) == count_char(a, c) + count_char(b, c),
    decreases b.len(),
{
    if b.len() == 0 {
        assert(a + b =~= a);
    } else {
        assert((a + b).drop_last() =~= a + b.drop_last());
        lemma_count_char_concat(a, b.drop_last(), c);
    }
}

/// A piece of the output: its text and, for a module's code, the module's
/// position among the rendered modules.
pub struct JoinPiece {
    pub text: String,
    pub module: Option<usize>,
}

/// A piece as the contracts see it.
pub type PieceView = (Seq<char>, Option<usize>);

/// Collects the pieces of the output in order.
pub struct SourceJoiner {
    pub sources: Vec<JoinPiece>,
}

impl View for SourceJoiner {
    type V = Seq<PieceView>;

    open spec fn view(&self) -> Seq<PieceView> {
        self.sources@.map_values(|p: JoinPiece| (p.text@, p.module))
    }
}

/// `ps` with the raw text `t` appended; empty text is dropped.
pub open spec fn raw_piece(ps: Seq<PieceView>, t: Seq<char>) -> Seq<PieceView> {
    if t.len() == 0 {
        ps
    } else {
        ps.push((t, None))
    }
}

/// `ps` with the code `t` of module `k` appended; empty code is dropped.
pub open spec fn mapped_piece(ps: Seq<PieceView>, t: Seq<char>, k: usize) -> Seq<PieceView> {
    if t.len() == 0 {
        ps
    } else {
        ps.push((t, Some(k)))
    }
}

/// The text of the pieces, in order.
pub open spec fn joined_text(ps: Seq<PieceView>) -> Seq<char>
    decreases ps.len(),
{
    if ps.len() == 0 {
        Seq::empty()
    } else {
        joined_text(ps.drop_last()) + ps.last().0
    }
}

/// For each module's code among the pieces, in order: the module's position
/// and the line (counted from 0, capped at `u32::MAX`) its code starts on.
pub open spec fn mapped_offsets(ps: Seq<PieceView>) -> Seq<(usize, u32)>
    decreases ps.len(),
{
    if ps.len() == 0 {
        Seq::empty()
    } else {
        let prev = mapped_offsets(ps.drop_last());
        match ps.last().1 {
            Some(k) => prev.push((k, sat_u32(count_char(joined_text(ps.drop_last()), '\n')) as u32)),
            None => prev,
        }
    }
}

impl SourceJoiner {
    /// A joiner with no pieces.
    pub fn new() -> (r: Self)
        ensures
            r@ == Seq::<PieceView>::empty(),
    {
        let r = SourceJoiner { sources: Vec::new() };
        assert(r@ =~= Seq::<PieceView>::empty());
        r
    }

    /// Appends unmapped text (directives, imports, markers, exports).
    pub fn append_raw(&mut self, text: String)
        ensures
            final(self)@ == raw_piece(old(self)@, text@),
    {
        if !text.as_str().is_empty() {
            let ghost before = self@;
            self.sources.push(JoinPiece { text, module: None });
            assert(self@ =~= before.push((self.sources@.last().text@, None)));
        }
    }

    /// Appends the code of the rendered module at position `module`.
    pub fn append_mapped(&mut self, code: String, module: usize)
        ensures
            final(self)@ == mapped_piece(old(self)@, code@, module),
    {
        if !code.as_str().is_empty() {
            let ghost before = self@;
            self.sources.push(JoinPiece { text: code, module: Some(module) });
            assert(self@ =~= before.push((self.sources@.last().text@, Some(module))));
        }
    }

    /// The joined text, and where each module's code starts in it.
    pub fn join(self) -> (r: (String, Vec<(usize, u32)>))
        ensures
            r.0@ == joined_text(self@),
            r.1@ == mapped_offsets(self@),
    {
        let ghost ps = self@;
        let mut output = String::new();
        let mut offsets: Vec<(usize, u32)> = Vec::new();
        let mut line_offset: u32 = 0;
        let mut i: usize = 0;
        while i < self.sources.len()
            invariant
                0 <= i <= ps.len(),
                ps == self@,
                output@ == joined_text(ps.take(i as int)),
                offsets@ == mapped_offsets(ps.take(i as int)),
                line_offset == sat_u32(count_char(joined_text(ps.take(i as int)), '\n')),
            decreases ps.len() - i,
        {
            let piece = &self.sources[i];
            proof {
                let tk = ps.take(i + 1);
                assert(tk.drop_last() =~= ps.take(i as int));
                assert(tk.last() == (piece.text@, piece.module));
            }
            if let Some(k) = piece.module {
                offsets.push((k, line_offset));
            }
            let n = count_newlines(piece.text.as_str());
            proof {
                lemma_count_char_concat(joined_text(ps.take(i as int)), piece.text@, '\n');
            }
            line_offset = line_offset.saturating_add(n);
            push_str(&mut output, piece.text.as_str());
            i += 1;
        }
        assert(ps.take(i as int) =~= ps);
        (output, offsets)
    }
}

/// `s` without its trailing newlines.
pub open spec fn trim_newlines(s: Seq<char>) -> Seq<char>
    decreases s.len(),
{
    if s.len() > 0 && s.last() == '\n' {
        trim_newlines(s.drop_last())
    } else {
        s
    }
}

/// Removes the trailing newlines of `text`.
pub fn trim_trailing_newlines(text: &str) -> (r: String)
    ensures
        r@ == trim_newlines(text@),
{
    let chars = str_chars(text);
    let mut n: usize = chars.len();
    assert(chars@.take(n as int) =~= text@);
    while n > 0 && chars[n - 1] == '\n'
        invariant
            0 <= n <= chars@.len(),
            chars@ == text@,
            trim_newlines(chars@.take(n as int)) == trim_newlines(text@),
        decreases n,
    {
        assert(chars@.take(n as int).drop_last() =~= chars@.take(n - 1));
        n -= 1;
    }
    let mut out = String::new();
    let mut i: usize = 0;
    while i < n
        invariant
            0 <= i <= n <= chars@.len(),
            out@ == chars@.take(i as int),
        decreases n - i,
    {
        string_push(&mut out, chars[i]);
        assert(chars@.take(i + 1) =~= chars@.take(i as int).push(chars@[i as int]));
        i += 1;
    }
    assert(chars@ =~= text@);
    assert(text@.take(n as int) == chars@.take(n as int));
    out
}


/// A module's rendered output.
pub struct RenderedModule {
    /// The module's path relative to the working directory.
    pub relative_path: String,
    /// Whether the module is wrapped in a namespace.
    pub is_ns_wrapped: bool,
    /// The `declare namespace` block of a wrapped module.
    pub namespace_wrapper: Option<String>,
    /// The module's generated code.
    pub code: String,
}

/// A rendered module as the contracts see it.
pub struct ModuleView {
    pub relative_path: Seq<char>,
    pub is_ns_wrapped: bool,
    pub wrapper: Option<Seq<char>>,
    pub code: Seq<char>,
}

impl View for RenderedModule {
    type V = ModuleView;

    open spec fn view(&self) -> ModuleView {
        ModuleView {
            relative_path: self.relative_path@,
            is_ns_wrapped: self.is_ns_wrapped,
            wrapper: match self.namespace_wrapper {
                Some(w) => Some(w@),
                None => None,
            },
            code: self.code@,
        }
    }
}

/// The views of a list of rendered modules.
pub open spec fn module_views(ms: Seq<RenderedModule>) -> Seq<ModuleView> {
    ms.map_values(|m: RenderedModule| m@)
}

/// One reference directive per line.
pub open spec fn directive_pieces(ps: Seq<PieceView>, ds: Seq<Seq<char>>) -> Seq<PieceView>
    decreases ds.len(),
{
    if ds.len() == 0 {
        ps
    } else {
        raw_piece(directive_pieces(ps, ds.drop_last()), ds.last() + "\n"@)
    }
}

/// `export [type ]* from "src";` for a kept star export.
pub open spec fn star_line(s: (Seq<char>, bool)) -> Seq<char> {
    "export "@ + (if s.1 { "type "@ } else { Seq::empty() }) + "* from \""@ + s.0 + "\";\n"@
}

/// The lines of the kept star exports.
pub open spec fn star_lines(ss: Seq<(Seq<char>, bool)>) -> Seq<char>
    decreases ss.len(),
{
    if ss.len() == 0 {
        Seq::empty()
    } else {
        star_lines(ss.drop_last()) + star_line(ss.last())
    }
}

/// Law (star re-exports): a kept star export of `src` is written as
/// `export type * from "src";` exactly when it is type-only, and as
/// `export * from "src";` otherwise; the lines of several follow one
/// another in order.
pub proof fn law_star_lines(ss: Seq<(Seq<char>, bool)>, s: (Seq<char>, bool))
    ensures
        star_line(s) == (if s.1 {
            "export type * from \""@
        } else {
            "export * from \""@
        }) + s.0 + "\";\n"@,
        star_lines(ss.push(s)) == star_lines(ss) + star_line(s),
        star_lines(Seq::empty()) == Seq::<char>::empty(),
{
    reveal_strlit("export ");
    reveal_strlit("type ");
    reveal_strlit("* from \"");
    reveal_strlit("export type * from \"");
    reveal_strlit("export * from \"");
    assert(ss.push(s).drop_last() =~= ss);
    if s.1 {
        assert("export "@ + "type "@ + "* from \""@ =~= "export type * from \""@);
        assert(star_line(s) =~= "export type * from \""@ + s.0 + "\";\n"@);
    } else {
        assert("export "@ + Seq::<char>::empty() + "* from \""@ =~= "export * from \""@);
        assert(star_line(s) =~= "export * from \""@ + s.0 + "\";\n"@);
    }
}

/// The namespace-wrapped modules among the first `n`: each one's wrapper,
/// then its code.
pub open spec fn wrapped_pieces(ps: Seq<PieceView>, ms: Seq<ModuleView>, n: nat) -> Seq<PieceView>
    decreases n,
{
    if n == 0 {
        ps
    } else {
        let prev = wrapped_pieces(ps, ms, (n - 1) as nat);
        let m = ms[n - 1];
        if m.is_ns_wrapped {
            let with_wrapper = match m.wrapper {
                Some(w) => raw_piece(prev, w),
                None => prev,
            };
            mapped_piece(with_wrapper, m.code, (n - 1) as usize)
        } else {
            prev
        }
    }
}

/// The other modules among the first `n` that have code, each in a region.
pub open spec fn region_pieces(ps: Seq<PieceView>, ms: Seq<ModuleView>, n: nat) -> Seq<PieceView>
    decreases n,
{
    if n == 0 {
        ps
    } else {
        let prev = region_pieces(ps, ms, (n - 1) as nat);
        let m = ms[n - 1];
        if !m.is_ns_wrapped && m.code.len() > 0 {
            raw_piece(
                mapped_piece(raw_piece(prev, "//#region "@ + m.relative_path + "\n"@), m.code, (n - 1) as usize),
                "//#endregion\n"@,
            )
        } else {
            prev
        }
    }
}

/// Whether anything comes from the modules: wrapper blocks or code.
pub open spec fn has_module_output(ns_blocks: Seq<char>, ms: Seq<ModuleView>) -> bool {
    ns_blocks.len() > 0 || exists|i: int| 0 <= i < ms.len() && (#[trigger] ms[i]).code.len() > 0
}

/// The local name for `export = X;`: with the option set, when the only
/// export is a value export named `default`.
pub open spec fn cjs_default_local(cjs_default: bool, es: Seq<ExportView>) -> Option<Seq<char>> {
    if cjs_default && es.len() == 1 && es[0].1 == "default"@ && !es[0].2 {
        Some(es[0].0)
    } else {
        None
    }
}

/// The closing export text: `export = X;`, the export statement, or
/// `export { };` when the source had export statements but nothing is
/// exported and no star export is kept.
pub open spec fn export_part(cjs_default: bool, es: Seq<ExportView>, has_any: bool, stars_empty: bool) -> Seq<char> {
    match cjs_default_local(cjs_default, es) {
        Some(l) => "export = "@ + l + ";"@,
        None => if es.len() > 0 {
            export_statement(es)
        } else if has_any && stars_empty {
            "export { };"@
        } else {
            Seq::empty()
        },
    }
}

/// The pieces of an entry's output, in order.
pub open spec fn entry_pieces(
    directives: Seq<Seq<char>>,
    imports: Seq<ImportView>,
    stars: Seq<(Seq<char>, bool)>,
    exports: Seq<ExportView>,
    has_any: bool,
    ns_blocks: Seq<char>,
    ms: Seq<ModuleView>,
    cjs_default: bool,
) -> Seq<PieceView> {
    let p1 = directive_pieces(Seq::empty(), directives);
    let p2 = raw_piece(p1, external_imports_text(imports));
    let p3 = raw_piece(p2, star_lines(stars));
    let p4 = if (imports.len() > 0 || stars.len() > 0) && has_module_output(ns_blocks, ms) {
        raw_piece(p3, "\n"@)
    } else {
        p3
    };
    let p5 = raw_piece(p4, ns_blocks);
    let p6 = wrapped_pieces(p5, ms, ms.len());
    let p7 = region_pieces(p6, ms, ms.len());
    raw_piece(p7, export_part(cjs_default, exports, has_any, stars.len() == 0))
}

proof fn lemma_joined_raw(ps: Seq<PieceView>, t: Seq<char>)
    ensures
        joined_text(raw_piece(ps, t)) == joined_text(ps) + t,
{
    if t.len() == 0 {
        assert(joined_text(ps) + t =~= joined_text(ps));
    } else {
        assert(ps.push((t, None)).drop_last() =~= ps);
    }
}

/// Law (an output of star exports alone): with no directives, external
/// imports, namespace blocks or modules, an entry's output is the lines of
/// its kept star exports, in order, then its export part.
pub proof fn law_star_only_output(
    stars: Seq<(Seq<char>, bool)>,
    exports: Seq<ExportView>,
    has_any: bool,
    cjs_default: bool,
)
    ensures
        joined_text(
            entry_pieces(Seq::empty(), Seq::empty(), stars, exports, has_any, Seq::empty(), Seq::empty(), cjs_default),
        ) == star_lines(stars) + export_part(cjs_default, exports, has_any, stars.len() == 0),
{
    let e: Seq<PieceView> = Seq::empty();
    let p1 = directive_pieces(e, Seq::empty());
    assert(p1 == e);
    assert(merge_imports(Seq::<ImportView>::empty()) =~= Seq::<ImportView>::empty());
    assert(merge_imports(Seq::<ImportView>::empty()).map_values(|m: ImportView| with_sorted_specifiers(m)) =~= Seq::<ImportView>::empty());
    assert(render_imports(Seq::<ImportView>::empty()) == Seq::<char>::empty());
    assert(external_imports_text(Seq::empty()) == Seq::<char>::empty());
    let p2 = raw_piece(p1, external_imports_text(Seq::empty()));
    assert(p2 == e);
    let p3 = raw_piece(p2, star_lines(stars));
    lemma_joined_raw(p2, star_lines(stars));
    assert(!has_module_output(Seq::empty(), Seq::<ModuleView>::empty()));
    let p5 = raw_piece(p3, Seq::empty());
    assert(p5 == p3);
    let p6 = wrapped_pieces(p5, Seq::<ModuleView>::empty(), 0);
    let p7 = region_pieces(p6, Seq::<ModuleView>::empty(), 0);
    assert(p7 == p3);
    lemma_joined_raw(p7, export_part(cjs_default, exports, has_any, stars.len() == 0));
    assert(joined_text(e) == Seq::<char>::empty());
    assert(Seq::<char>::empty() + star_lines(stars) =~= star_lines(stars));
}

/// The local name for `export = X;`, if the output takes that form.
pub fn cjs_default_export_local(cjs_default: bool, exports: &Vec<ExportedName>) -> (r: Option<&str>)
    ensures
        match r {
            Some(l) => cjs_default_local(cjs_default, export_views(exports@)) == Some(l@),
            None => cjs_default_local(cjs_default, export_views(exports@)) is None,
        },
{
    if !cjs_default || exports.len() != 1 {
        return None;
    }
    let only = &exports[0];
    assert(export_views(exports@)[0] == only@);
    if str_eq(only.exported.as_str(), "default") && !only.is_type_only {
        return Some(only.local.as_str());
    }
    None
}

/// Assembles the pieces of an entry's output: the reference directives, the
/// merged external imports (which leave `acc`), the kept star exports, a
/// blank line before the module output when both are there, the namespace
/// helper blocks, the namespace-wrapped modules, the other modules in
/// `//#region` markers, and the closing export text.
pub fn assemble_entry(
    directives: &Vec<String>,
    acc: &mut GenerateAcc,
    ns_wrapper_blocks: String,
    modules: &Vec<RenderedModule>,
    cjs_default: bool,
) -> (r: SourceJoiner)
    ensures
        r@ == entry_pieces(
            str_views(directives@),
            old(acc)@.imports,
            old(acc)@.stars,
            old(acc)@.exports,
            old(acc)@.has_any,
            ns_wrapper_blocks@,
            module_views(modules@),
            cjs_default,
        ),
        final(acc)@.imports.len() == 0,
        final(acc)@.exports == old(acc)@.exports,
        final(acc)@.stars == old(acc)@.stars,
        final(acc)@.has_any == old(acc)@.has_any,
{
    let ghost a0 = acc@;
    let ghost ds = str_views(directives@);
    let ghost ms = module_views(modules@);
    let mut joiner = SourceJoiner::new();
    let mut i: usize = 0;
    while i < directives.len()
        invariant
            0 <= i <= ds.len(),
            ds == str_views(directives@),
            joiner@ == directive_pieces(Seq::empty(), ds.take(i as int)),
        decreases ds.len() - i,
    {
        let mut line = string_clone(directives[i].as_str());
        string_push(&mut line, '\n');
        proof {
            let tk = ds.take(i + 1);
            assert(tk.drop_last() =~= ds.take(i as int));
            assert(tk.last() == directives@[i as int]@);
            assert(line@ =~= directives@[i as int]@ + "\n"@) by {
                reveal_strlit("\n");
            }
        }
        joiner.append_raw(line);
        i += 1;
    }
    assert(ds.take(i as int) =~= ds);
    let had_imports = acc.imports.len() > 0;
    let mut imports_text = String::new();
    write_external_imports(&mut acc.imports, &mut imports_text);
    assert(acc@.imports =~= Seq::<ImportView>::empty());
    joiner.append_raw(imports_text);
    let mut stars_text = String::new();
    let mut k: usize = 0;
    while k < acc.star_exports.len()
        invariant
            0 <= k <= acc@.stars.len(),
            acc@.stars == a0.stars,
            stars_text@ == star_lines(a0.stars.take(k as int)),
        decreases acc@.stars.len() - k,
    {
        let star = &acc.star_exports[k];
        proof {
            let tk = a0.stars.take(k + 1);
            assert(tk.drop_last() =~= a0.stars.take(k as int));
            assert(tk.last() == (star.source@, star.is_type_only));
        }
        let ghost before = stars_text@;
        push_str(&mut stars_text, "export ");
        if star.is_type_only {
            push_str(&mut stars_text, "type ");
        }
        push_str(&mut stars_text, "* from \"");
        push_str(&mut stars_text, star.source.as_str());
        push_str(&mut stars_text, "\";\n");
        proof {
            reveal_strlit("export ");
            reveal_strlit("type ");
            reveal_strlit("* from \"");
            reveal_strlit("\";\n");
            assert(stars_text@ =~= before + star_line((star.source@, star.is_type_only)));
        }
        k += 1;
    }
    assert(a0.stars.take(k as int) =~= a0.stars);
    joiner.append_raw(stars_text);
    let mut has_output = !ns_wrapper_blocks.as_str().is_empty();
    let mut j: usize = 0;
    while j < modules.len() && !has_output
        invariant
            0 <= j <= modules@.len(),
            ms == module_views(modules@),
            has_output == (ns_wrapper_blocks@.len() > 0 || exists|x: int| 0 <= x < j && (#[trigger] ms[x]).code.len() > 0),
        decreases modules@.len() - j,
    {
        if !modules[j].code.as_str().is_empty() {
            assert(ms[j as int].code.len() > 0);
            has_output = true;
        }
        j += 1;
    }
    assert(has_output == has_module_output(ns_wrapper_blocks@, ms));
    if (had_imports || acc.star_exports.len() > 0) && has_output {
        joiner.append_raw("\n".to_string());
    }
    joiner.append_raw(ns_wrapper_blocks);
    let ghost p5 = joiner@;
    let mut m: usize = 0;
    while m < modules.len()
        invariant
            0 <= m <= modules@.len(),
            ms == module_views(modules@),
            joiner@ == wrapped_pieces(p5, ms, m as nat),
        decreases modules@.len() - m,
    {
        let module = &modules[m];
        assert(ms[m as int] == module@);
        if module.is_ns_wrapped {
            if let Some(wrapper) = &module.namespace_wrapper {
                joiner.append_raw(string_clone(wrapper.as_str()));
            }
            joiner.append_mapped(string_clone(module.code.as_str()), m);
        }
        m += 1;
    }
    let ghost p6 = joiner@;
    let mut m: usize = 0;
    while m < modules.len()
        invariant
            0 <= m <= modules@.len(),
            ms == module_views(modules@),
            joiner@ == region_pieces(p6, ms, m as nat),
        decreases modules@.len() - m,
    {
        let module = &modules[m];
        assert(ms[m as int] == module@);
        if !module.is_ns_wrapped && !module.code.as_str().is_empty() {
            let mut marker = "//#region ".to_string();
            push_str(&mut marker, module.relative_path.as_str());
            string_push(&mut marker, '\n');
            proof {
                reveal_strlit("//#region ");
                reveal_strlit("\n");
                assert(marker@ =~= "//#region "@ + module.relative_path@ + "\n"@);
            }
            joiner.append_raw(marker);
            joiner.append_mapped(string_clone(module.code.as_str()), m);
            joiner.append_raw("//#endregion\n".to_string());
        }
        m += 1;
    }
    let mut tail = String::new();
    match cjs_default_export_local(cjs_default, &acc.exports) {
        Some(local) => {
            push_str(&mut tail, "export = ");
            push_str(&mut tail, local);
            push_str(&mut tail, ";");
            proof {
                reveal_strlit("export = ");
                reveal_strlit(";");
                assert(tail@ =~= "export = "@ + local@ + ";"@);
            }
        },
        None => {
            if acc.exports.len() > 0 {
                write_export_statement(acc.exports.as_slice(), &mut tail);
                assert(tail@ =~= export_statement(export_views(acc.exports@)));
            } else if acc.has_any_export_statement && acc.star_exports.len() == 0 {
                push_str(&mut tail, "export { };");
                assert(tail@ =~= "export { };"@);
            } else {
                assert(tail@ =~= Seq::<char>::empty());
            }
        },
    }
    joiner.append_raw(tail);
    joiner
}


/// An entry's bundled text, without trailing newlines, and the line each
/// module's code starts on (for the source map).
pub fn generate_entry_output(
    directives: &Vec<String>,
    acc: &mut GenerateAcc,
    ns_wrapper_blocks: String,
    modules: &Vec<RenderedModule>,
    cjs_default: bool,
) -> (r: (String, Vec<(usize, u32)>))
    ensures
        r.0@ == trim_newlines(joined_text(entry_pieces(
            str_views(directives@),
            old(acc)@.imports,
            old(acc)@.stars,
            old(acc)@.exports,
            old(acc)@.has_any,
            ns_wrapper_blocks@,
            module_views(modules@),
            cjs_default,
        ))),
        r.1@ == mapped_offsets(entry_pieces(
            str_views(directives@),
            old(acc)@.imports,
            old(acc)@.stars,
            old(acc)@.exports,
            old(acc)@.has_any,
            ns_wrapper_blocks@,
            module_views(modules@),
            cjs_default,
        )),
        final(acc)@.imports.len() == 0,
        final(acc)@.exports == old(acc)@.exports,
        final(acc)@.stars == old(acc)@.stars,
        final(acc)@.has_any == old(acc)@.has_any,
{
    let joiner = assemble_entry(directives, acc, ns_wrapper_blocks, modules, cjs_default);
    let (text, offsets) = joiner.join();
    (trim_trailing_newlines(text.as_str()), offsets)
}

/// A wrapper's export specifier: `local as exported`, or the name alone.
pub open spec fn plain_export(e: ExportView) -> Seq<char> {
    if e.0 == e.1 {
        e.1
    } else {
        e.0 + " as "@ + e.1
    }
}

/// The wrapper's export specifiers, in order, separated by `, `.
pub open spec fn plain_exports(s: Seq<ExportView>) -> Seq<char>
    decreases s.len(),
{
    if s.len() == 0 {
        Seq::empty()
    } else if s.len() == 1 {
        plain_export(s[0])
    } else {
        plain_exports(s.drop_last()) + ", "@ + plain_export(s.last())
    }
}

/// The `declare namespace` block that wraps a module.
pub open spec fn wrapper_block(name: Seq<char>, es: Seq<ExportView>) -> Seq<char> {
    "declare namespace "@ + name + " {\n  export { "@ + plain_exports(es) + " };\n}\n"@
}

/// Renders the `declare namespace` block of a namespace-wrapped module.
pub fn namespace_wrapper_text(wrap: &NamespaceWrapInfo) -> (r: String)
    ensures
        r@ == wrapper_block(wrap@.0, wrap@.1),
{
    let ghost es = wrap@.1;
    let mut out = "declare namespace ".to_string();
    push_str(&mut out, wrap.namespace_name.as_str());
    push_str(&mut out, " {\n  export { ");
    let ghost head = out@;
    let mut i: usize = 0;
    while i < wrap.export_names.len()
        invariant
            0 <= i <= es.len(),
            es == wrap@.1,
            out@ == head + plain_exports(es.take(i as int)),
        decreases es.len() - i,
    {
        let exp = &wrap.export_names[i];
        let ghost before = out@;
        if i > 0 {
            push_str(&mut out, ", ");
        }
        if str_eq(exp.local.as_str(), exp.exported.as_str()) {
            push_str(&mut out, exp.exported.as_str());
        } else {
            push_str(&mut out, exp.local.as_str());
            push_str(&mut out, " as ");
            push_str(&mut out, exp.exported.as_str());
        }
        proof {
            reveal_strlit(", ");
            reveal_strlit(" as ");
            let tk = es.take(i + 1);
            assert(tk.drop_last() =~= es.take(i as int));
            assert(tk.last() == exp@);
            if i == 0 {
                assert(tk =~= seq![exp@]);
                assert(es.take(0) =~= Seq::<ExportView>::empty());
            }
            assert(out@ =~= head + plain_exports(tk));
        }
        i += 1;
    }
    assert(es.take(i as int) =~= es);
    push_str(&mut out, " };\n}\n");
    proof {
        reveal_strlit("declare namespace ");
        reveal_strlit(" {\n  export { ");
        reveal_strlit(" };\n}\n");
        assert(out@ =~= wrapper_block(wrap@.0, es));
    }
    out
}

} // verus!
