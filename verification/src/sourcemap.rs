//! Source map composition: a map from the bundle to a `.d.ts` file, traced
//! through the `.d.ts` file's own map, maps the bundle to the TypeScript
//! sources.

use vstd::prelude::*;

use crate::namespace::pair_views;
use crate::rename::str_views;
use crate::text::{str_eq, string_clone};

verus! {

/// One mapping of a source map: a position in the generated text, the
/// position it comes from, and the indices of its source and name.
#[derive(Clone, Copy, PartialEq, Eq, Structural, Debug)]
pub struct MapToken {
    pub dst_line: u32,
    pub dst_col: u32,
    pub src_line: u32,
    pub src_col: u32,
    pub source_id: Option<u32>,
    pub name_id: Option<u32>,
}

/// A composed map: its sources (path, content), names and tokens.
pub struct ComposedMap {
    pub sources: Vec<(String, String)>,
    pub names: Vec<String>,
    pub tokens: Vec<MapToken>,
}

/// A composed map as the contracts see it.
pub struct ComposedView {
    pub sources: Seq<(Seq<char>, Seq<char>)>,
    pub names: Seq<Seq<char>>,
    pub tokens: Seq<MapToken>,
}

impl View for ComposedMap {
    type V = ComposedView;

    open spec fn view(&self) -> ComposedView {
        ComposedView {
            sources: pair_views(self.sources@),
            names: str_views(self.names@),
            tokens: self.tokens@,
        }
    }
}

/// The tokens are ordered by generated position.
pub open spec fn tokens_sorted(t: Seq<MapToken>) -> bool {
    forall|i: int, j: int|
        0 <= i < j < t.len() ==> (t[i].dst_line < t[j].dst_line || (t[i].dst_line == t[j].dst_line
            && t[i].dst_col <= t[j].dst_col))
}

/// Token `k` of `t` is on generated line `line` at or before column `col`.
pub open spec fn at_or_before(t: Seq<MapToken>, k: int, line: u32, col: u32) -> bool {
    0 <= k < t.len() && t[k].dst_line == line && t[k].dst_col <= col
}

/// Token `k` is what a lookup of (`line`, `col`) finds: the first of the
/// tokens on that line with the greatest column not after `col`.
pub open spec fn is_lookup(t: Seq<MapToken>, line: u32, col: u32, k: int) -> bool {
    &&& at_or_before(t, k, line, col)
    &&& forall|j: int| #[trigger] at_or_before(t, j, line, col) ==> t[j].dst_col <= t[k].dst_col
    &&& forall|j: int| 0 <= j < k && #[trigger] at_or_before(t, j, line, col) ==> t[j].dst_col < t[k].dst_col
}

/// Finds the token a position maps through: the first token on line `line`
/// with the greatest column not after `col`, if any.
pub fn lookup_token(t: &Vec<MapToken>, line: u32, col: u32) -> (r: Option<usize>)
    ensures
        match r {
            Some(k) => is_lookup(t@, line, col, k as int),
            None => forall|j: int| !#[trigger] at_or_before(t@, j, line, col),
        },
{
    let mut best: Option<usize> = None;
    let mut i: usize = 0;
    while i < t.len()
        invariant
            0 <= i <= t@.len(),
            match best {
                Some(k) => k < i && at_or_before(t@, k as int, line, col) && (forall|j: int|
                    0 <= j < i && #[trigger] at_or_before(t@, j, line, col) ==> t@[j].dst_col <= t@[k as int].dst_col)
                    && (forall|j: int| 0 <= j < k && #[trigger] at_or_before(t@, j, line, col) ==> t@[j].dst_col
                    < t@[k as int].dst_col),
                None => forall|j: int| 0 <= j < i ==> !#[trigger] at_or_before(t@, j, line, col),
            },
        decreases t@.len() - i,
    {
        let tok = t[i];
        if tok.dst_line == line && tok.dst_col <= col {
            match best {
                Some(k) => {
                    if tok.dst_col > t[k].dst_col {
                        best = Some(i);
                    }
                },
                None => {
                    best = Some(i);
                },
            }
        }
        i += 1;
    }
    best
}

/// The index of the first source with path `path`.
pub open spec fn source_index(s: Seq<(Seq<char>, Seq<char>)>, path: Seq<char>) -> Option<int>
    decreases s.len(),
{
    if s.len() == 0 {
        None
    } else {
        match source_index(s.drop_last(), path) {
            Some(i) => Some(i),
            None => if s.last().0 == path {
                Some(s.len() - 1)
            } else {
                None
            },
        }
    }
}

/// The index of the first name equal to `name`.
pub open spec fn name_index(s: Seq<Seq<char>>, name: Seq<char>) -> Option<int>
    decreases s.len(),
{
    if s.len() == 0 {
        None
    } else {
        match name_index(s.drop_last(), name) {
            Some(i) => Some(i),
            None => if s.last() == name {
                Some(s.len() - 1)
            } else {
                None
            },
        }
    }
}

/// Adding a source (path, content): the sources and the index it has
/// there. A path that is already there keeps its index and first content.
pub open spec fn add_source(s: Seq<(Seq<char>, Seq<char>)>, src: (Seq<char>, Seq<char>)) -> (Seq<(Seq<char>, Seq<char>)>, int) {
    match source_index(s, src.0) {
        Some(i) => (s, i),
        None => (s.push(src), s.len() as int),
    }
}

/// Adding a name: the names and the index it has there.
pub open spec fn add_name(s: Seq<Seq<char>>, name: Seq<char>) -> (Seq<Seq<char>>, int) {
    match name_index(s, name) {
        Some(i) => (s, i),
        None => (s.push(name), s.len() as int),
    }
}

/// The empty composed map.
pub open spec fn empty_composed() -> ComposedView {
    ComposedView { sources: Seq::empty(), names: Seq::empty(), tokens: Seq::empty() }
}

/// What one token of the generated map adds. The token's source position
/// is looked up in the input map; when that finds a token with a source of
/// the input map, the result maps to that token's source position (with
/// its source and, if it has one, its name); else the token keeps its own
/// source position and source (by path and content) and has no name.
pub open spec fn compose_step(
    acc: ComposedView,
    tok: MapToken,
    input: Seq<MapToken>,
    input_sources: Seq<(Seq<char>, Seq<char>)>,
    input_names: Seq<Seq<char>>,
    generated_sources: Seq<(Seq<char>, Seq<char>)>,
) -> ComposedView {
    let found = if exists|k: int| is_lookup(input, tok.src_line, tok.src_col, k) {
        let k = choose|k: int| is_lookup(input, tok.src_line, tok.src_col, k);
        match input[k].source_id {
            Some(sid) => if sid < input_sources.len() {
                Some(k)
            } else {
                None
            },
            None => None,
        }
    } else {
        None
    };
    match found {
        Some(k) => {
            let orig = input[k];
            let (srcs, sid) = add_source(acc.sources, input_sources[orig.source_id.unwrap() as int]);
            let (names, nid) = match orig.name_id {
                Some(id) => if id < input_names.len() {
                    let (ns, i) = add_name(acc.names, input_names[id as int]);
                    (ns, Some(i as u32))
                } else {
                    (acc.names, None)
                },
                None => (acc.names, None),
            };
            ComposedView {
                sources: srcs,
                names: names,
                tokens: acc.tokens.push(
                    MapToken {
                        dst_line: tok.dst_line,
                        dst_col: tok.dst_col,
                        src_line: orig.src_line,
                        src_col: orig.src_col,
                        source_id: Some(sid as u32),
                        name_id: nid,
                    },
                ),
            }
        },
        None => {
            let (srcs, sid) = match tok.source_id {
                Some(s) => if s < generated_sources.len() {
                    let (ss, i) = add_source(acc.sources, generated_sources[s as int]);
                    (ss, Some(i as u32))
                } else {
                    (acc.sources, None)
                },
                None => (acc.sources, None),
            };
            ComposedView {
                sources: srcs,
                names: acc.names,
                tokens: acc.tokens.push(
                    MapToken {
                        dst_line: tok.dst_line,
                        dst_col: tok.dst_col,
                        src_line: tok.src_line,
                        src_col: tok.src_col,
                        source_id: sid,
                        name_id: None,
                    },
                ),
            }
        },
    }
}

/// The composition of the first `n` tokens of the generated map.
pub open spec fn compose_upto(
    generated: Seq<MapToken>,
    n: int,
    input: Seq<MapToken>,
    input_sources: Seq<(Seq<char>, Seq<char>)>,
    input_names: Seq<Seq<char>>,
    generated_sources: Seq<(Seq<char>, Seq<char>)>,
) -> ComposedView
    decreases n,
{
    if n <= 0 {
        empty_composed()
    } else {
        compose_step(
            compose_upto(generated, n - 1, input, input_sources, input_names, generated_sources),
            generated[n - 1],
            input,
            input_sources,
            input_names,
            generated_sources,
        )
    }
}

/// The composition of the whole generated map.
pub open spec fn compose_spec(
    generated: Seq<MapToken>,
    input: Seq<MapToken>,
    input_sources: Seq<(Seq<char>, Seq<char>)>,
    input_names: Seq<Seq<char>>,
    generated_sources: Seq<(Seq<char>, Seq<char>)>,
) -> ComposedView {
    compose_upto(generated, generated.len() as int, input, input_sources, input_names, generated_sources)
}

proof fn lemma_source_index_bounds(s: Seq<(Seq<char>, Seq<char>)>, path: Seq<char>)
    ensures
        source_index(s, path) matches Some(i) ==> 0 <= i < s.len() && s[i].0 == path,
        source_index(s, path) is None ==> forall|i: int| 0 <= i < s.len() ==> s[i].0 != path,
    decreases s.len(),
{
    if s.len() > 0 {
        let d = s.drop_last();
        lemma_source_index_bounds(d, path);
        assert forall|i: int| 0 <= i < d.len() implies d[i] == s[i] by {}
        if source_index(s, path) is None {
            assert forall|i: int| 0 <= i < s.len() implies s[i].0 != path by {
                if i < d.len() {
                    assert(d[i] == s[i]);
                }
            }
        }
    }
}

proof fn lemma_name_index_bounds(s: Seq<Seq<char>>, name: Seq<char>)
    ensures
        name_index(s, name) matches Some(i) ==> 0 <= i < s.len() && s[i] == name,
        name_index(s, name) is None ==> forall|i: int| 0 <= i < s.len() ==> s[i] != name,
    decreases s.len(),
{
    if s.len() > 0 {
        let d = s.drop_last();
        lemma_name_index_bounds(d, name);
        assert forall|i: int| 0 <= i < d.len() implies d[i] == s[i] by {}
        if name_index(s, name) is None {
            assert forall|i: int| 0 <= i < s.len() implies s[i] != name by {
                if i < d.len() {
                    assert(d[i] == s[i]);
                }
            }
        }
    }
}

proof fn lemma_source_index_first(s: Seq<(Seq<char>, Seq<char>)>, path: Seq<char>, i: int)
    requires
        0 <= i < s.len(),
        s[i].0 == path,
        forall|j: int| 0 <= j < i ==> s[j].0 != path,
    ensures
        source_index(s, path) == Some(i),
    decreases s.len(),
{
    if i < s.len() - 1 {
        lemma_source_index_first(s.drop_last(), path, i);
    } else {
        lemma_source_index_bounds(s.drop_last(), path);
    }
}

proof fn lemma_name_index_first(s: Seq<Seq<char>>, name: Seq<char>, i: int)
    requires
        0 <= i < s.len(),
        s[i] == name,
        forall|j: int| 0 <= j < i ==> s[j] != name,
    ensures
        name_index(s, name) == Some(i),
    decreases s.len(),
{
    if i < s.len() - 1 {
        lemma_name_index_first(s.drop_last(), name, i);
    } else {
        lemma_name_index_bounds(s.drop_last(), name);
    }
}

/// Adds a source to `sources` unless its path is there; its index.
fn push_source(sources: &mut Vec<(String, String)>, path: &str, content: &str) -> (r: usize)
    ensures
        (pair_views(final(sources)@), r as int) == add_source(pair_views(old(sources)@), (path@, content@)),
{
    let ghost v0 = pair_views(sources@);
    let mut i: usize = 0;
    while i < sources.len()
        invariant
            0 <= i <= sources@.len(),
            v0 == pair_views(sources@),
            forall|j: int| 0 <= j < i ==> v0[j].0 != path@,
        decreases sources@.len() - i,
    {
        if str_eq(sources[i].0.as_str(), path) {
            proof {
                lemma_source_index_first(v0, path@, i as int);
            }
            return i;
        }
        i += 1;
    }
    proof {
        lemma_source_index_bounds(v0, path@);
        if source_index(v0, path@) is Some {
            let k = source_index(v0, path@).unwrap();
            assert(v0[k].0 == path@);
        }
    }
    let n = sources.len();
    sources.push((string_clone(path), string_clone(content)));
    assert(pair_views(sources@) =~= v0.push((path@, content@)));
    n
}

/// Adds a name to `names` unless it is there; its index.
fn push_name(names: &mut Vec<String>, name: &str) -> (r: usize)
    ensures
        (str_views(final(names)@), r as int) == add_name(str_views(old(names)@), name@),
{
    let ghost v0 = str_views(names@);
    let mut i: usize = 0;
    while i < names.len()
        invariant
            0 <= i <= names@.len(),
            v0 == str_views(names@),
            forall|j: int| 0 <= j < i ==> v0[j] != name@,
        decreases names@.len() - i,
    {
        if str_eq(names[i].as_str(), name) {
            proof {
                lemma_name_index_first(v0, name@, i as int);
            }
            return i;
        }
        i += 1;
    }
    proof {
        lemma_name_index_bounds(v0, name@);
        if name_index(v0, name@) is Some {
            let k = name_index(v0, name@).unwrap();
            assert(v0[k] == name@);
        }
    }
    let n = names.len();
    names.push(string_clone(name));
    assert(str_views(names@) =~= v0.push(name@));
    n
}

proof fn lemma_lookup_unique(t: Seq<MapToken>, line: u32, col: u32, a: int, b: int)
    requires
        is_lookup(t, line, col, a),
        is_lookup(t, line, col, b),
    ensures
        a == b,
{
    assert(t[a].dst_col <= t[b].dst_col);
    assert(t[b].dst_col <= t[a].dst_col);
    if a < b {
        assert(t[a].dst_col < t[b].dst_col);
    }
    if b < a {
        assert(t[b].dst_col < t[a].dst_col);
    }
}

/// Composes the map of the bundle (`generated`, whose sources are
/// `generated_sources`) with the input map of the `.d.ts` file (`input`,
/// with sources `input_sources` and names `input_names`): each generated
/// token is traced through the input map where a lookup finds a token with
/// a source, and keeps its `.d.ts` mapping otherwise. Sources are kept
/// once per path and names once each, in the order they are first used.
pub fn compose_source_map(
    generated: &Vec<MapToken>,
    input: &Vec<MapToken>,
    input_sources: &Vec<(String, String)>,
    input_names: &Vec<String>,
    generated_sources: &Vec<(String, String)>,
) -> (r: ComposedMap)
    requires
        generated@.len() <= u32::MAX,
    ensures
        r@ == compose_spec(
            generated@,
            input@,
            pair_views(input_sources@),
            str_views(input_names@),
            pair_views(generated_sources@),
        ),
{
    let ghost isrc = pair_views(input_sources@);
    let ghost inames = str_views(input_names@);
    let ghost gsrc = pair_views(generated_sources@);
    let mut out = ComposedMap { sources: Vec::new(), names: Vec::new(), tokens: Vec::new() };
    let mut i: usize = 0;
    assert(pair_views(out.sources@) =~= Seq::<(Seq<char>, Seq<char>)>::empty());
    assert(str_views(out.names@) =~= Seq::<Seq<char>>::empty());
    assert(out.tokens@ =~= Seq::<MapToken>::empty());
    while i < generated.len()
        invariant
            0 <= i <= generated@.len(),
            generated@.len() <= u32::MAX,
            isrc == pair_views(input_sources@),
            inames == str_views(input_names@),
            gsrc == pair_views(generated_sources@),
            out@ == compose_upto(generated@, i as int, input@, isrc, inames, gsrc),
            out.sources@.len() <= i,
            out.names@.len() <= i,
        decreases generated@.len() - i,
    {
        let tok = generated[i];
        let ghost acc = out@;
        let ghost ls = out.sources@.len();
        let ghost ln = out.names@.len();
        let lk = lookup_token(input, tok.src_line, tok.src_col);
        proof {
            match lk {
                Some(k) => {
                    let k2 = choose|k2: int| is_lookup(input@, tok.src_line, tok.src_col, k2);
                    lemma_lookup_unique(input@, tok.src_line, tok.src_col, k as int, k2);
                },
                None => {
                    assert(!exists|k: int| is_lookup(input@, tok.src_line, tok.src_col, k));
                },
            }
        }
        let found: Option<usize> = match lk {
            Some(k) => match input[k].source_id {
                Some(sid) => if (sid as usize) < input_sources.len() {
                    Some(k)
                } else {
                    None
                },
                None => None,
            },
            None => None,
        };
        match found {
            Some(k) => {
                let orig = input[k];
                let sid = orig.source_id.unwrap() as usize;
                assert(isrc[sid as int] == (input_sources@[sid as int].0@, input_sources@[sid as int].1@));
                let s = push_source(&mut out.sources, input_sources[sid].0.as_str(), input_sources[sid].1.as_str());
                let nid: Option<u32> = match orig.name_id {
                    Some(id) => if (id as usize) < input_names.len() {
                        assert(inames[id as int] == input_names@[id as int]@);
                        let n = push_name(&mut out.names, input_names[id as usize].as_str());
                        Some(n as u32)
                    } else {
                        None
                    },
                    None => None,
                };
                out.tokens.push(
                    MapToken {
                        dst_line: tok.dst_line,
                        dst_col: tok.dst_col,
                        src_line: orig.src_line,
                        src_col: orig.src_col,
                        source_id: Some(s as u32),
                        name_id: nid,
                    },
                );
            },
            None => {
                let sid: Option<u32> = match tok.source_id {
                    Some(s) => if (s as usize) < generated_sources.len() {
                        assert(gsrc[s as int] == (generated_sources@[s as int].0@, generated_sources@[s as int].1@));
                        let n = push_source(
                            &mut out.sources,
                            generated_sources[s as usize].0.as_str(),
                            generated_sources[s as usize].1.as_str(),
                        );
                        Some(n as u32)
                    } else {
                        None
                    },
                    None => None,
                };
                out.tokens.push(
                    MapToken {
                        dst_line: tok.dst_line,
                        dst_col: tok.dst_col,
                        src_line: tok.src_line,
                        src_col: tok.src_col,
                        source_id: sid,
                        name_id: None,
                    },
                );
            },
        }
        assert(out@ == compose_step(acc, tok, input@, isrc, inames, gsrc));
        assert(pair_views(out.sources@).len() == out.sources@.len());
        assert(str_views(out.names@).len() == out.names@.len());
        assert(acc.sources.len() == ls && acc.names.len() == ln);
        i += 1;
    }
    out
}

} // verus!
