//! Source maps as data: decoding and encoding their JSON form with
//! `oxc_sourcemap`, tracing a module's map through its input map, and
//! joining the maps of the modules of a bundle.

use vstd::prelude::*;

use oxc_sourcemap::{SourceMap, Token};

use crate::namespace::pair_views;
use crate::paths::{components, diff_paths, is_absolute, relative_comps, render, resolve_absolute_path, resolve_comps};
use crate::rename::str_views;
use crate::sourcemap::{compose_source_map, compose_spec, ComposedMap, MapToken};
use crate::text::string_clone;

verus! {

/// A source map as plain values: its sources, their contents where the map
/// holds them, its names and its tokens.
pub struct SourceMapData {
    pub sources: Vec<String>,
    pub contents: Vec<Option<String>>,
    pub names: Vec<String>,
    pub tokens: Vec<MapToken>,
}

/// A source map as the contracts see it.
pub struct SourceMapView {
    pub sources: Seq<Seq<char>>,
    pub contents: Seq<Option<Seq<char>>>,
    pub names: Seq<Seq<char>>,
    pub tokens: Seq<MapToken>,
}

/// The views of optional strings.
pub open spec fn opt_str_views(v: Seq<Option<String>>) -> Seq<Option<Seq<char>>> {
    v.map_values(|c: Option<String>| match c {
        Some(s) => Some(s@),
        None => None,
    })
}

impl View for SourceMapData {
    type V = SourceMapView;

    open spec fn view(&self) -> SourceMapView {
        SourceMapView {
            sources: str_views(self.sources@),
            contents: opt_str_views(self.contents@),
            names: str_views(self.names@),
            tokens: self.tokens@,
        }
    }
}

/// The view of an optional source map.
pub open spec fn opt_map_view(m: Option<SourceMapData>) -> Option<SourceMapView> {
    match m {
        Some(d) => Some(d@),
        None => None,
    }
}

/// Each token is on the generated line of the token before it or a later
/// one, as the encoder needs (it counts the line breaks between them).
pub open spec fn lines_ordered(t: Seq<MapToken>) -> bool {
    forall|i: int| 0 <= i < t.len() - 1 ==> #[trigger] t[i].dst_line <= t[i + 1].dst_line
}

/// Whether the tokens' generated lines never go back.
pub fn check_lines_ordered(t: &Vec<MapToken>) -> (b: bool)
    ensures
        b == lines_ordered(t@),
{
    let mut i: usize = 1;
    while i < t.len()
        invariant
            1 <= i,
            i <= t@.len() || t@.len() == 0,
            forall|j: int| 0 <= j < i - 1 && j < t@.len() - 1 ==> #[trigger] t@[j].dst_line <= t@[j + 1].dst_line,
        decreases t@.len() - i,
    {
        if t[i - 1].dst_line > t[i].dst_line {
            assert(t@[(i - 1) as int].dst_line > t@[(i - 1) + 1].dst_line);
            return false;
        }
        i += 1;
    }
    true
}

/// The source map that `oxc_sourcemap` decodes from the JSON text `json`,
/// or `None` where it refuses the text.
pub uninterp spec fn decoded_source_map(json: Seq<char>) -> Option<SourceMapView>;

/// The JSON text that `oxc_sourcemap` encodes a source map with no file and
/// no source root into.
pub uninterp spec fn encoded_source_map(map: SourceMapView) -> Seq<char>;

/// Calls `oxc_sourcemap::SourceMap::from_json_string` and reads the map's
/// sources, source contents, names and tokens out. Claimed: the result is
/// a function of the text alone, `None` where the call fails.
#[verifier::external_body]
fn decode_with_oxc(json: &str) -> (r: Option<SourceMapData>)
    ensures
        opt_map_view(r) == decoded_source_map(json@),
{
    let map = SourceMap::from_json_string(json).ok()?;
    Some(SourceMapData {
        sources: map.get_sources().map(|s| s.to_string()).collect(),
        contents: map.get_source_contents().map(|c| c.map(|c| c.to_string())).collect(),
        names: map.get_names().map(|n| n.to_string()).collect(),
        tokens: map.get_tokens().map(|t| MapToken {
            dst_line: t.get_dst_line(),
            dst_col: t.get_dst_col(),
            src_line: t.get_src_line(),
            src_col: t.get_src_col(),
            source_id: t.get_source_id(),
            name_id: t.get_name_id(),
        }).collect(),
    })
}

/// Builds an `oxc_sourcemap::SourceMap` (no file, no source root) from the
/// map's parts and calls its `to_json_string`. Claimed: the text is a
/// function of the map alone.
#[verifier::external_body]
fn encode_with_oxc(map: &SourceMapData) -> (r: String)
    requires
        lines_ordered(map.tokens@),
    ensures
        r@ == encoded_source_map(map@),
{
    let names = map.names.iter().map(|n| n.as_str().into()).collect();
    let sources = map.sources.iter().map(|s| s.as_str().into()).collect();
    let contents = map.contents.iter().map(|c| c.as_deref().map(Into::into)).collect();
    let tokens = map.tokens.iter().map(|t| Token::new(t.dst_line, t.dst_col, t.src_line, t.src_col, t.source_id, t.name_id));
    SourceMap::new(None, names, None, sources, contents, tokens.collect(), None).to_json_string()
}

/// Decodes the JSON text of a source map.
pub fn decode_source_map(json: &str) -> (r: Option<SourceMapData>)
    ensures
        opt_map_view(r) == decoded_source_map(json@),
{
    decode_with_oxc(json)
}

/// Encodes a source map as JSON text.
pub fn encode_source_map(map: &SourceMapData) -> (r: String)
    requires
        lines_ordered(map.tokens@),
    ensures
        r@ == encoded_source_map(map@),
{
    encode_with_oxc(map)
}

/// `source` joined onto the directory `dir`, as `Path::join` does it: an
/// absolute source stands alone; otherwise a `/` separates the two unless
/// `dir` is empty or ends with one.
pub open spec fn joined_path(dir: Seq<char>, source: Seq<char>) -> Seq<char> {
    if is_absolute(source) {
        source
    } else if dir.len() == 0 || dir.last() == '/' {
        dir + source
    } else {
        dir + seq!['/'] + source
    }
}

/// The absolute, normalized path of a source of an input map that sits in
/// the directory `dir`.
pub open spec fn resolved_source(dir: Seq<char>, source: Seq<char>) -> Seq<char> {
    render(resolve_comps(components(joined_path(dir, source))))
}

fn join_path(dir: &str, source: &str) -> (r: String)
    ensures
        r@ == joined_path(dir@, source@),
{
    let sv = crate::text::str_chars(source);
    let dv = crate::text::str_chars(dir);
    if sv.len() > 0 && sv[0] == '/' {
        return string_clone(source);
    }
    let mut out = string_clone(dir);
    if dv.len() > 0 && dv[dv.len() - 1] != '/' {
        crate::text::string_push(&mut out, '/');
    }
    let mut i: usize = 0;
    let ghost start = out@;
    while i < sv.len()
        invariant
            0 <= i <= sv@.len(),
            sv@ == source@,
            out@ == start + sv@.take(i as int),
        decreases sv@.len() - i,
    {
        crate::text::string_push(&mut out, sv[i]);
        assert(sv@.take(i + 1) =~= sv@.take(i as int).push(sv@[i as int]));
        i += 1;
    }
    assert(sv@.take(sv@.len() as int) =~= sv@);
    proof {
        if !(dv@.len() > 0 && dv@[dv@.len() - 1] != '/') {
            assert(start == dir@);
        } else {
            assert(start =~= dir@ + seq!['/']);
            assert(out@ =~= dir@ + seq!['/'] + source@);
        }
    }
    out
}

/// The absolute paths of the sources of an input map that sits in the
/// directory `dir`, in order.
pub fn input_source_paths(input: &SourceMapData, dir: &str) -> (r: Vec<String>)
    ensures
        r@.len() == input.sources@.len(),
        forall|i: int| 0 <= i < r@.len() ==> (#[trigger] r@[i])@ == resolved_source(dir@, input.sources@[i]@),
{
    let mut out: Vec<String> = Vec::new();
    let mut i: usize = 0;
    while i < input.sources.len()
        invariant
            0 <= i <= input.sources@.len(),
            out@.len() == i,
            forall|j: int| 0 <= j < i ==> (#[trigger] out@[j])@ == resolved_source(dir@, input.sources@[j]@),
        decreases input.sources@.len() - i,
    {
        let joined = join_path(dir, input.sources[i].as_str());
        out.push(resolve_absolute_path(joined.as_str()));
        i += 1;
    }
    out
}

/// The sources of the input map as composition uses them: each path made
/// relative to `cwd`, with the content the map holds, else the content read
/// from disk (`disk`), else empty.
pub open spec fn input_sources_spec(
    input: SourceMapView,
    dir: Seq<char>,
    cwd: Seq<char>,
    disk: Seq<Option<Seq<char>>>,
) -> Seq<(Seq<char>, Seq<char>)> {
    Seq::new(
        input.sources.len(),
        |i: int|
            (
                render(relative_comps(components(resolved_source(dir, input.sources[i])), components(cwd))),
                content_or(if i < input.contents.len() { input.contents[i] } else { None }, if i < disk.len() {
                    disk[i]
                } else {
                    None
                }),
            ),
    )
}

/// The first content present of `a` and `b`, else empty.
pub open spec fn content_or(a: Option<Seq<char>>, b: Option<Seq<char>>) -> Seq<char> {
    match a {
        Some(c) => c,
        None => match b {
            Some(c) => c,
            None => Seq::empty(),
        },
    }
}

/// The sources of the generated map with their contents (empty where the
/// map holds none).
pub open spec fn generated_sources_spec(g: SourceMapView) -> Seq<(Seq<char>, Seq<char>)> {
    Seq::new(
        g.sources.len(),
        |i: int| (g.sources[i], content_or(if i < g.contents.len() { g.contents[i] } else { None }, None)),
    )
}

fn content_at(contents: &Vec<Option<String>>, i: usize) -> (r: Option<String>)
    ensures
        opt_str_views(seq![r])[0] == if i < contents@.len() {
            opt_str_views(contents@)[i as int]
        } else {
            None
        },
{
    if i < contents.len() {
        match &contents[i] {
            Some(c) => Some(string_clone(c.as_str())),
            None => None,
        }
    } else {
        None
    }
}

/// A composed map as source map data: each source with its content.
pub open spec fn composed_as_map(c: crate::sourcemap::ComposedView) -> SourceMapView {
    SourceMapView {
        sources: c.sources.map_values(|s: (Seq<char>, Seq<char>)| s.0),
        contents: c.sources.map_values(|s: (Seq<char>, Seq<char>)| Some(s.1)),
        names: c.names,
        tokens: c.tokens,
    }
}

/// What tracing the map `generated` of a module through the module's
/// input map `input` gives (see [`compose_spec`]); the input map sits in
/// directory `dir`, its sources are made relative to `cwd`, and `disk`
/// holds the contents read from disk for sources whose content it lacks.
pub open spec fn traced_map(
    generated: SourceMapView,
    input: SourceMapView,
    dir: Seq<char>,
    cwd: Seq<char>,
    disk: Seq<Option<Seq<char>>>,
) -> SourceMapView {
    composed_as_map(
        compose_spec(
            generated.tokens,
            input.tokens,
            input_sources_spec(input, dir, cwd, disk),
            input.names,
            generated_sources_spec(generated),
        ),
    )
}

/// Traces the codegen map of a module (JSON text `generated`) through the
/// module's decoded input map `input`, which sits in directory `dir`; its
/// sources are made relative to `cwd`, and `disk` holds the contents read
/// from disk for the sources whose content the map lacks. `None` when the
/// codegen map does not decode, has more tokens than a `u32` counts, or its
/// generated lines go back.
pub fn trace_through_input(
    generated: &str,
    input: &SourceMapData,
    dir: &str,
    cwd: &str,
    disk: &Vec<Option<String>>,
) -> (r: Option<String>)
    ensures
        match decoded_source_map(generated@) {
            Some(g) => if g.tokens.len() <= u32::MAX && lines_ordered(
                traced_map(g, input@, dir@, cwd@, opt_str_views(disk@)).tokens,
            ) {
                r matches Some(s) && s@ == encoded_source_map(
                    traced_map(g, input@, dir@, cwd@, opt_str_views(disk@)),
                )
            } else {
                r is None
            },
            None => r is None,
        },
{
    let g = match decode_with_oxc(generated) {
        Some(g) => g,
        None => return None,
    };
    if g.tokens.len() > 4294967295usize {
        return None;
    }
    let ghost dv = opt_str_views(disk@);
    let ghost iv = input@;
    let mut input_sources: Vec<(String, String)> = Vec::new();
    let mut i: usize = 0;
    while i < input.sources.len()
        invariant
            0 <= i <= input.sources@.len(),
            iv == input@,
            dv == opt_str_views(disk@),
            pair_views(input_sources@) == input_sources_spec(iv, dir@, cwd@, dv).take(i as int),
        decreases input.sources@.len() - i,
    {
        let joined = join_path(dir, input.sources[i].as_str());
        let absolute = resolve_absolute_path(joined.as_str());
        let relative = diff_paths(absolute.as_str(), cwd);
        let held = content_at(&input.contents, i);
        let content = match held {
            Some(c) => c,
            None => match content_at(disk, i) {
                Some(c) => c,
                None => String::new(),
            },
        };
        let ghost before = pair_views(input_sources@);
        input_sources.push((relative, content));
        proof {
            assert(pair_views(input_sources@) =~= before.push((relative@, content@)));
            assert(input_sources_spec(iv, dir@, cwd@, dv).take(i + 1) =~= input_sources_spec(iv, dir@, cwd@, dv).take(
                i as int,
            ).push(input_sources_spec(iv, dir@, cwd@, dv)[i as int]));
        }
        i += 1;
    }
    assert(input_sources_spec(iv, dir@, cwd@, dv).take(input.sources@.len() as int) =~= input_sources_spec(
        iv,
        dir@,
        cwd@,
        dv,
    ));
    let ghost gv = g@;
    let mut generated_sources: Vec<(String, String)> = Vec::new();
    let mut j: usize = 0;
    while j < g.sources.len()
        invariant
            0 <= j <= g.sources@.len(),
            gv == g@,
            pair_views(generated_sources@) == generated_sources_spec(gv).take(j as int),
        decreases g.sources@.len() - j,
    {
        let content = match content_at(&g.contents, j) {
            Some(c) => c,
            None => String::new(),
        };
        let ghost before = pair_views(generated_sources@);
        generated_sources.push((string_clone(g.sources[j].as_str()), content));
        proof {
            assert(pair_views(generated_sources@) =~= before.push((g.sources@[j as int]@, content@)));
            assert(generated_sources_spec(gv).take(j + 1) =~= generated_sources_spec(gv).take(j as int).push(
                generated_sources_spec(gv)[j as int],
            ));
        }
        j += 1;
    }
    assert(generated_sources_spec(gv).take(g.sources@.len() as int) =~= generated_sources_spec(gv));
    let composed = compose_source_map(&g.tokens, &input.tokens, &input_sources, &input.names, &generated_sources);
    let data = composed_data(composed);
    if !check_lines_ordered(&data.tokens) {
        return None;
    }
    Some(encode_with_oxc(&data))
}

/// A composed map as source map data.
fn composed_data(c: ComposedMap) -> (r: SourceMapData)
    ensures
        r@ == composed_as_map(c@),
{
    let mut sources: Vec<String> = Vec::new();
    let mut contents: Vec<Option<String>> = Vec::new();
    let mut i: usize = 0;
    while i < c.sources.len()
        invariant
            0 <= i <= c.sources@.len(),
            str_views(sources@) == c@.sources.take(i as int).map_values(|s: (Seq<char>, Seq<char>)| s.0),
            opt_str_views(contents@) == c@.sources.take(i as int).map_values(|s: (Seq<char>, Seq<char>)| Some(s.1)),
        decreases c.sources@.len() - i,
    {
        let ghost bs = str_views(sources@);
        let ghost bc = opt_str_views(contents@);
        sources.push(string_clone(c.sources[i].0.as_str()));
        contents.push(Some(string_clone(c.sources[i].1.as_str())));
        proof {
            assert(c@.sources[i as int] == (c.sources@[i as int].0@, c.sources@[i as int].1@));
            assert(c@.sources.take(i + 1) =~= c@.sources.take(i as int).push(c@.sources[i as int]));
            assert(str_views(sources@) =~= bs.push(c.sources@[i as int].0@));
            assert(opt_str_views(contents@) =~= bc.push(Some(c.sources@[i as int].1@)));
            assert(str_views(sources@) =~= c@.sources.take(i + 1).map_values(|s: (Seq<char>, Seq<char>)| s.0));
            assert(opt_str_views(contents@) =~= c@.sources.take(i + 1).map_values(
                |s: (Seq<char>, Seq<char>)| Some(s.1),
            ));
        }
        i += 1;
    }
    assert(c@.sources.take(c.sources@.len() as int) =~= c@.sources);
    SourceMapData { sources, contents, names: c.names, tokens: c.tokens }
}

} // verus!

verus! {

/// A source or name index moved up by `offset`.
pub open spec fn shifted_id(id: Option<u32>, offset: nat) -> Option<u32> {
    match id {
        Some(x) => Some((x + offset) as u32),
        None => None,
    }
}

/// A token of a map joined into a concatenation: its generated line moved
/// down by `line`, its source and name indices moved up by the numbers of
/// sources (`so`) and names (`no`) already there.
pub open spec fn translated_token(t: MapToken, line: u32, so: nat, no: nat) -> MapToken {
    MapToken {
        dst_line: (t.dst_line + line) as u32,
        dst_col: t.dst_col,
        src_line: t.src_line,
        src_col: t.src_col,
        source_id: shifted_id(t.source_id, so),
        name_id: shifted_id(t.name_id, no),
    }
}

/// The tokens `acc` followed by the translated tokens `ts`, where the first
/// of these is left out when it equals the last token already there.
pub open spec fn appended_tokens(acc: Seq<MapToken>, ts: Seq<MapToken>, line: u32, so: nat, no: nat) -> Seq<
    MapToken,
> {
    let moved = ts.map_values(|t: MapToken| translated_token(t, line, so, no));
    if ts.len() > 0 && acc.len() > 0 && acc.last() == moved[0] {
        acc + moved.drop_first()
    } else {
        acc + moved
    }
}

/// Contents cut or padded with `None` to `n` entries.
pub open spec fn padded_contents(c: Seq<Option<Seq<char>>>, n: nat) -> Seq<Option<Seq<char>>> {
    Seq::new(n, |i: int| if i < c.len() { c[i] } else { None })
}

/// What `oxc_sourcemap`'s `ConcatSourceMapBuilder::add_sourcemap` does to
/// the joined map `acc` when the map `m` is added at line offset `line`.
pub open spec fn concat_step(acc: SourceMapView, m: SourceMapView, line: u32) -> SourceMapView {
    SourceMapView {
        sources: acc.sources + m.sources,
        contents: padded_contents(acc.contents + m.contents, acc.sources.len() + m.sources.len()),
        names: acc.names + m.names,
        tokens: appended_tokens(acc.tokens, m.tokens, line, acc.sources.len(), acc.names.len()),
    }
}

/// The empty map.
pub open spec fn empty_map_view() -> SourceMapView {
    SourceMapView { sources: Seq::empty(), contents: Seq::empty(), names: Seq::empty(), tokens: Seq::empty() }
}

/// The first `k` maps joined, each at its line offset.
pub open spec fn concat_upto(maps: Seq<(SourceMapView, u32)>, k: int) -> SourceMapView
    decreases k,
{
    if k <= 0 {
        empty_map_view()
    } else {
        concat_step(concat_upto(maps, k - 1), maps[k - 1].0, maps[k - 1].1)
    }
}

/// Joining the maps keeps every line and index within a `u32` (an index
/// below the value that marks a missing one).
pub open spec fn concat_fits(maps: Seq<(SourceMapView, u32)>) -> bool {
    forall|k: int, i: int|
        0 <= k < maps.len() && 0 <= i < maps[k].0.tokens.len() ==> {
            let t = #[trigger] maps[k].0.tokens[i];
            let acc = concat_upto(maps, k);
            &&& t.dst_line + maps[k].1 <= u32::MAX
            &&& (t.source_id matches Some(x) ==> x + acc.sources.len() < u32::MAX)
            &&& (t.name_id matches Some(x) ==> x + acc.names.len() < u32::MAX)
        }
}

fn shift_id(id: Option<u32>, offset: usize) -> (r: Option<u32>)
    requires
        id matches Some(x) ==> x + offset < u32::MAX,
    ensures
        r == shifted_id(id, offset as nat),
{
    match id {
        Some(x) => Some(x + offset as u32),
        None => None,
    }
}

/// The maps `maps` joined, each at its line offset, as `oxc_sourcemap`'s
/// `ConcatSourceMapBuilder` joins them (see [`concat_step`]).
pub fn concat_source_maps(maps: &Vec<(SourceMapData, u32)>) -> (r: SourceMapData)
    requires
        concat_fits(maps@.map_values(|p: (SourceMapData, u32)| (p.0@, p.1))),
    ensures
        r@ == concat_upto(maps@.map_values(|p: (SourceMapData, u32)| (p.0@, p.1)), maps@.len() as int),
{
    let ghost mv = maps@.map_values(|p: (SourceMapData, u32)| (p.0@, p.1));
    let mut out = SourceMapData { sources: Vec::new(), contents: Vec::new(), names: Vec::new(), tokens: Vec::new() };
    assert(out@ =~= empty_map_view()) by {
        assert(out@.sources =~= Seq::<Seq<char>>::empty());
        assert(out@.contents =~= Seq::<Option<Seq<char>>>::empty());
        assert(out@.names =~= Seq::<Seq<char>>::empty());
    }
    let mut k: usize = 0;
    while k < maps.len()
        invariant
            0 <= k <= maps@.len(),
            mv == maps@.map_values(|p: (SourceMapData, u32)| (p.0@, p.1)),
            concat_fits(mv),
            out@ == concat_upto(mv, k as int),
        decreases maps@.len() - k,
    {
        let ghost acc = out@;
        let m = &maps[k].0;
        let line = maps[k].1;
        assert(mv[k as int] == (m@, line));
        let so = out.sources.len();
        let no = out.names.len();
        // sources
        let mut i: usize = 0;
        while i < m.sources.len()
            invariant
                0 <= i <= m.sources@.len(),
                str_views(out.sources@) == acc.sources + m@.sources.take(i as int),
                opt_str_views(out.contents@) == acc.contents,
                str_views(out.names@) == acc.names,
                out.tokens@ == acc.tokens,
            decreases m.sources@.len() - i,
        {
            let ghost b = str_views(out.sources@);
            out.sources.push(string_clone(m.sources[i].as_str()));
            assert(str_views(out.sources@) =~= b.push(m.sources@[i as int]@));
            assert(m@.sources.take(i + 1) =~= m@.sources.take(i as int).push(m@.sources[i as int]));
            i += 1;
        }
        assert(m@.sources.take(m.sources@.len() as int) =~= m@.sources);
        // contents, then padded to the sources
        let mut i: usize = 0;
        while i < m.contents.len()
            invariant
                0 <= i <= m.contents@.len(),
                opt_str_views(out.contents@) == acc.contents + m@.contents.take(i as int),
                str_views(out.sources@) == acc.sources + m@.sources,
                str_views(out.names@) == acc.names,
                out.tokens@ == acc.tokens,
            decreases m.contents@.len() - i,
        {
            let ghost b = opt_str_views(out.contents@);
            let c = content_at(&m.contents, i);
            out.contents.push(c);
            assert(opt_str_views(out.contents@) =~= b.push(m@.contents[i as int]));
            assert(m@.contents.take(i + 1) =~= m@.contents.take(i as int).push(m@.contents[i as int]));
            i += 1;
        }
        assert(m@.contents.take(m.contents@.len() as int) =~= m@.contents);
        let ghost joined = acc.contents + m@.contents;
        assert(opt_str_views(out.contents@) == joined);
        if out.contents.len() > out.sources.len() {
            let ghost full = out.contents@;
            out.contents.truncate(out.sources.len());
            assert(out.contents@ == full.subrange(0, out.sources@.len() as int));
            assert(forall|q: int| 0 <= q < out.contents@.len() ==> #[trigger] opt_str_views(out.contents@)[q] == opt_str_views(full)[q]);
        }
        while out.contents.len() < out.sources.len()
            invariant
                out.contents@.len() <= out.sources@.len(),
                out.contents@.len() >= joined.len() || out.contents@.len() == out.sources@.len(),
                str_views(out.sources@) == acc.sources + m@.sources,
                str_views(out.names@) == acc.names,
                out.tokens@ == acc.tokens,
                forall|q: int| 0 <= q < out.contents@.len() ==> #[trigger] opt_str_views(out.contents@)[q] == (if q < joined.len() {
                    joined[q]
                } else {
                    None
                }),
            decreases out.sources@.len() - out.contents@.len(),
        {
            let ghost b = out.contents@;
            out.contents.push(None);
            assert(opt_str_views(out.contents@) =~= opt_str_views(b).push(None));
            assert forall|q: int| 0 <= q < out.contents@.len() implies #[trigger] opt_str_views(out.contents@)[q] == (if q < joined.len() {
                joined[q]
            } else {
                None
            }) by {
                if q < b.len() {
                    assert(opt_str_views(out.contents@)[q] == opt_str_views(b)[q]);
                }
            }
        }
        assert(opt_str_views(out.contents@) =~= padded_contents(joined, (acc.sources.len() + m@.sources.len()) as nat));
        // names
        let mut i: usize = 0;
        while i < m.names.len()
            invariant
                0 <= i <= m.names@.len(),
                str_views(out.names@) == acc.names + m@.names.take(i as int),
                str_views(out.sources@) == acc.sources + m@.sources,
                opt_str_views(out.contents@) == padded_contents(joined, (acc.sources.len() + m@.sources.len()) as nat),
                out.tokens@ == acc.tokens,
            decreases m.names@.len() - i,
        {
            let ghost b = str_views(out.names@);
            out.names.push(string_clone(m.names[i].as_str()));
            assert(str_views(out.names@) =~= b.push(m.names@[i as int]@));
            assert(m@.names.take(i + 1) =~= m@.names.take(i as int).push(m@.names[i as int]));
            i += 1;
        }
        assert(m@.names.take(m.names@.len() as int) =~= m@.names);
        // tokens
        let ghost moved = m@.tokens.map_values(|t: MapToken| translated_token(t, line, so as nat, no as nat));
        let ghost start = out.tokens@;
        assert(start == acc.tokens);
        let mut i: usize = 0;
        let mut skip_first = false;
        while i < m.tokens.len()
            invariant
                0 <= i <= m.tokens@.len(),
                concat_fits(mv),
                0 <= k < mv.len(),
                mv[k as int] == (m@, line),
                acc == concat_upto(mv, k as int),
                so == acc.sources.len(),
                no == acc.names.len(),
                moved == m@.tokens.map_values(|t: MapToken| translated_token(t, line, so as nat, no as nat)),
                start == acc.tokens,
                str_views(out.names@) == acc.names + m@.names,
                str_views(out.sources@) == acc.sources + m@.sources,
                opt_str_views(out.contents@) == padded_contents(joined, (acc.sources.len() + m@.sources.len()) as nat),
                i == 0 ==> !skip_first && out.tokens@ == start,
                i > 0 ==> skip_first == (start.len() > 0 && start.last() == moved[0]),
                i > 0 ==> out.tokens@ == if skip_first {
                    start + moved.take(i as int).drop_first()
                } else {
                    start + moved.take(i as int)
                },
            decreases m.tokens@.len() - i,
        {
            let t = m.tokens[i];
            assert(mv[k as int].0.tokens[i as int] == t);
            let moved_t = MapToken {
                dst_line: t.dst_line + line,
                dst_col: t.dst_col,
                src_line: t.src_line,
                src_col: t.src_col,
                source_id: shift_id(t.source_id, so),
                name_id: shift_id(t.name_id, no),
            };
            assert(moved_t == moved[i as int]);
            let ghost b = out.tokens@;
            if i == 0 && out.tokens.len() > 0 && out.tokens[out.tokens.len() - 1] == moved_t {
                skip_first = true;
            } else {
                out.tokens.push(moved_t);
            }
            proof {
                assert(moved.take(i + 1) =~= moved.take(i as int).push(moved[i as int]));
                if i > 0 {
                    if skip_first {
                        assert(moved.take(i + 1).drop_first() =~= moved.take(i as int).drop_first().push(moved[i as int]));
                    }
                } else {
                    assert(moved.take(1).drop_first() =~= Seq::<MapToken>::empty());
                    assert(out.tokens@ =~= if skip_first { start + moved.take(1).drop_first() } else { start + moved.take(1) });
                }
            }
            i += 1;
        }
        proof {
            assert(moved.take(m.tokens@.len() as int) =~= moved);
            if m.tokens@.len() == 0 {
                assert(moved =~= Seq::<MapToken>::empty());
                assert(out.tokens@ =~= start + moved);
            }
        }
        assert(out.tokens@ == appended_tokens(acc.tokens, m@.tokens, line, so as nat, no as nat));
        assert(out@ == concat_step(acc, m@, line));
        k += 1;
    }
    out
}

} // verus!

verus! {

/// The maps among `maps` (JSON text, line offset) that decode, with their
/// offsets, in order.
pub open spec fn decoded_pairs(maps: Seq<(Seq<char>, u32)>) -> Seq<(SourceMapView, u32)>
    decreases maps.len(),
{
    if maps.len() == 0 {
        Seq::empty()
    } else {
        let prev = decoded_pairs(maps.drop_last());
        match decoded_source_map(maps.last().0) {
            Some(m) => prev.push((m, maps.last().1)),
            None => prev,
        }
    }
}

/// The views of (text, offset) pairs.
pub open spec fn text_pair_views(maps: Seq<(String, u32)>) -> Seq<(Seq<char>, u32)> {
    maps.map_values(|p: (String, u32)| (p.0@, p.1))
}

/// A count capped at `u64::MAX`.
pub open spec fn capped(n: nat) -> nat {
    if n <= u64::MAX {
        n
    } else {
        u64::MAX as nat
    }
}

/// Whether joining the maps keeps every line and index within a `u32`.
fn concat_fits_check(maps: &Vec<(SourceMapData, u32)>) -> (b: bool)
    ensures
        b == concat_fits(maps@.map_values(|p: (SourceMapData, u32)| (p.0@, p.1))),
{
    let ghost mv = maps@.map_values(|p: (SourceMapData, u32)| (p.0@, p.1));
    let mut so: u64 = 0;
    let mut no: u64 = 0;
    let mut k: usize = 0;
    while k < maps.len()
        invariant
            0 <= k <= maps@.len(),
            mv == maps@.map_values(|p: (SourceMapData, u32)| (p.0@, p.1)),
            so == capped(concat_upto(mv, k as int).sources.len()),
            no == capped(concat_upto(mv, k as int).names.len()),
            forall|k2: int, i: int|
                0 <= k2 < k && 0 <= i < mv[k2].0.tokens.len() ==> {
                    let t = #[trigger] mv[k2].0.tokens[i];
                    let acc = concat_upto(mv, k2);
                    &&& t.dst_line + mv[k2].1 <= u32::MAX
                    &&& (t.source_id matches Some(x) ==> x + acc.sources.len() < u32::MAX)
                    &&& (t.name_id matches Some(x) ==> x + acc.names.len() < u32::MAX)
                },
        decreases maps@.len() - k,
    {
        let m = &maps[k].0;
        let line = maps[k].1;
        assert(mv[k as int] == (m@, line));
        let mut i: usize = 0;
        while i < m.tokens.len()
            invariant
                0 <= i <= m.tokens@.len(),
                0 <= k < mv.len(),
                mv == maps@.map_values(|p: (SourceMapData, u32)| (p.0@, p.1)),
                mv[k as int] == (m@, line),
                so == capped(concat_upto(mv, k as int).sources.len()),
                no == capped(concat_upto(mv, k as int).names.len()),
                forall|j: int|
                    0 <= j < i ==> {
                        let t = #[trigger] mv[k as int].0.tokens[j];
                        let acc = concat_upto(mv, k as int);
                        &&& t.dst_line + mv[k as int].1 <= u32::MAX
                        &&& (t.source_id matches Some(x) ==> x + acc.sources.len() < u32::MAX)
                        &&& (t.name_id matches Some(x) ==> x + acc.names.len() < u32::MAX)
                    },
            decreases m.tokens@.len() - i,
        {
            let t = m.tokens[i];
            assert(mv[k as int].0.tokens[i as int] == t);
            let mut fits = t.dst_line as u64 + line as u64 <= 4294967295u64;
            match t.source_id {
                Some(x) => if so >= 4294967295u64 || x as u64 + so >= 4294967295u64 {
                    fits = false;
                },
                None => {},
            }
            match t.name_id {
                Some(x) => if no >= 4294967295u64 || x as u64 + no >= 4294967295u64 {
                    fits = false;
                },
                None => {},
            }
            if !fits {
                proof {
                    if concat_fits(mv) {
                        let tt = mv[k as int].0.tokens[i as int];
                        let acc = concat_upto(mv, k as int);
                        assert(tt.dst_line + mv[k as int].1 <= u32::MAX);
                        assert(tt.source_id matches Some(x) ==> x + acc.sources.len() < u32::MAX);
                        assert(tt.name_id matches Some(x) ==> x + acc.names.len() < u32::MAX);
                        assert(tt == t);
                    }
                }
                return false;
            }
            i += 1;
        }
        assert(concat_upto(mv, k + 1) == concat_step(concat_upto(mv, k as int), m@, line));
        so = so.saturating_add(m.sources.len() as u64);
        no = no.saturating_add(m.names.len() as u64);
        k += 1;
    }
    true
}

/// Joins the source maps of the modules of a bundle (JSON text, line
/// offset of the module's code), as `oxc_sourcemap`'s
/// `ConcatSourceMapBuilder` joins them; maps that do not decode are left
/// out. `None` when no map decodes, when the joined map would not fit
/// `u32` lines and indices, or when its generated lines go back.
pub fn join_module_maps(maps: &Vec<(String, u32)>) -> (r: Option<String>)
    ensures
        ({
            let d = decoded_pairs(text_pair_views(maps@));
            if d.len() > 0 && concat_fits(d) && lines_ordered(concat_upto(d, d.len() as int).tokens) {
                r matches Some(s) && s@ == encoded_source_map(concat_upto(d, d.len() as int))
            } else {
                r is None
            }
        }),
{
    let ghost tv = text_pair_views(maps@);
    let mut decoded: Vec<(SourceMapData, u32)> = Vec::new();
    let mut i: usize = 0;
    while i < maps.len()
        invariant
            0 <= i <= maps@.len(),
            tv == text_pair_views(maps@),
            decoded@.map_values(|p: (SourceMapData, u32)| (p.0@, p.1)) == decoded_pairs(tv.take(i as int)),
        decreases maps@.len() - i,
    {
        proof {
            assert(tv.take(i + 1).drop_last() =~= tv.take(i as int));
            assert(tv.take(i + 1).last() == (maps@[i as int].0@, maps@[i as int].1));
        }
        let ghost before = decoded@.map_values(|p: (SourceMapData, u32)| (p.0@, p.1));
        match decode_with_oxc(maps[i].0.as_str()) {
            Some(m) => {
                let ghost mview = m@;
                decoded.push((m, maps[i].1));
                assert(decoded@.map_values(|p: (SourceMapData, u32)| (p.0@, p.1)) =~= before.push((mview, maps@[i as int].1)));
            },
            None => {},
        }
        i += 1;
    }
    assert(tv.take(maps@.len() as int) =~= tv);
    if decoded.len() == 0 || !concat_fits_check(&decoded) {
        return None;
    }
    let joined = concat_source_maps(&decoded);
    if !check_lines_ordered(&joined.tokens) {
        return None;
    }
    Some(encode_with_oxc(&joined))
}

} // verus!
