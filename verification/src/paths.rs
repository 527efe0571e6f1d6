//! `/`-separated path handling: components, normalization, relative paths,
//! file names and extensions, and classification of specifiers and files.

use vstd::prelude::*;

use crate::text::{
    chars_ends_with, chars_eq, chars_eq_ignore_ascii_case, chars_starts_with, cow_replace_char,
    eq_ignore_ascii_case, has_prefix, has_suffix, literal_chars, push_str, replace_char, str_chars,
    string_from_chars,
};

verus! {

/// A path component (the components of `std::path::Path` on Unix).
pub enum PathComponent {
    RootDir,
    CurDir,
    ParentDir,
    Normal(String),
}

/// The mathematical value of a path component.
pub enum Comp {
    Root,
    Cur,
    Parent,
    Normal(Seq<char>),
}

impl PathComponent {
    pub open spec fn view(&self) -> Comp {
        match self {
            PathComponent::RootDir => Comp::Root,
            PathComponent::CurDir => Comp::Cur,
            PathComponent::ParentDir => Comp::Parent,
            PathComponent::Normal(s) => Comp::Normal(s@),
        }
    }
}

/// The views of a sequence of components.
pub open spec fn comps_view(v: Seq<PathComponent>) -> Seq<Comp> {
    v.map_values(|c: PathComponent| c.view())
}

/// The non-empty `/`-separated segments of `s`, where `cur` is the segment
/// being read.
pub open spec fn segments_from(s: Seq<char>, cur: Seq<char>) -> Seq<Seq<char>>
    decreases s.len(),
{
    if s.len() == 0 {
        if cur.len() == 0 { Seq::empty() } else { seq![cur] }
    } else if s[0] == '/' {
        (if cur.len() == 0 { Seq::empty() } else { seq![cur] }) + segments_from(s.drop_first(), Seq::empty())
    } else {
        segments_from(s.drop_first(), cur.push(s[0]))
    }
}

/// The non-empty `/`-separated segments of `s`.
pub open spec fn segments(s: Seq<char>) -> Seq<Seq<char>> {
    segments_from(s, Seq::empty())
}

/// The component a segment stands for: `..` is the parent directory, `.` the
/// current directory, anything else a normal name.
pub open spec fn segment_comp(seg: Seq<char>) -> Comp {
    if seg == seq!['.', '.'] {
        Comp::Parent
    } else if seg == seq!['.'] {
        Comp::Cur
    } else {
        Comp::Normal(seg)
    }
}

/// The components of the segments `segs`, dropping `.` except as the first
/// component of a relative path (`first` tells whether that position is reached).
pub open spec fn segment_comps(segs: Seq<Seq<char>>, keep_leading_cur: bool) -> Seq<Comp>
    decreases segs.len(),
{
    if segs.len() == 0 {
        Seq::empty()
    } else {
        let c = segment_comp(segs[0]);
        let rest = segment_comps(segs.drop_first(), false);
        if c == Comp::Cur && !keep_leading_cur { rest } else { seq![c] + rest }
    }
}

/// Whether a path string is absolute.
pub open spec fn is_absolute(s: Seq<char>) -> bool {
    s.len() > 0 && s[0] == '/'
}

/// The components of a path string, as `Path::components` yields them.
pub open spec fn components(s: Seq<char>) -> Seq<Comp> {
    if is_absolute(s) {
        seq![Comp::Root] + segment_comps(segments(s), false)
    } else {
        segment_comps(segments(s), true)
    }
}

/// Splits a path string into its non-empty segments.
fn split_segments(path: &str) -> (r: Vec<String>)
    ensures
        r@.map_values(|s: String| s@) == segments(path@),
{
    let chars = str_chars(path);
    let mut out: Vec<String> = Vec::new();
    let mut cur: Vec<char> = Vec::new();
    let mut i: usize = 0;
    assert(chars@.skip(0) == chars@);
    while i < chars.len()
        invariant
            0 <= i <= chars@.len(),
            chars@ == path@,
            out@.map_values(|s: String| s@) + segments_from(chars@.skip(i as int), cur@) == segments(path@),
        decreases chars@.len() - i,
    {
        let c = chars[i];
        let ghost rest = chars@.skip(i as int);
        assert(rest.drop_first() == chars@.skip(i + 1));
        if c == '/' {
            if cur.len() > 0 {
                let seg = string_from_chars(&cur);
                let ghost before = out@.map_values(|s: String| s@);
                out.push(seg);
                assert(out@.map_values(|s: String| s@) == before.push(cur@));
                assert(before + (seq![cur@] + segments_from(rest.drop_first(), Seq::empty()))
                    == before.push(cur@) + segments_from(rest.drop_first(), Seq::empty()));
            } else {
                assert(Seq::<Seq<char>>::empty() + segments_from(rest.drop_first(), Seq::empty())
                    == segments_from(rest.drop_first(), Seq::empty()));
            }
            cur = Vec::new();
        } else {
            cur.push(c);
        }
        i += 1;
    }
    if cur.len() > 0 {
        let seg = string_from_chars(&cur);
        let ghost before = out@.map_values(|s: String| s@);
        out.push(seg);
        assert(out@.map_values(|s: String| s@) == before.push(cur@));
    } else {
        assert(out@.map_values(|s: String| s@) + Seq::<Seq<char>>::empty() == out@.map_values(|s: String| s@));
    }
    out
}

/// Whether a segment is `..`.
fn seg_is_dotdot(seg: &Vec<char>) -> (r: bool)
    ensures
        r == (seg@ == seq!['.', '.']),
{
    if seg.len() == 2 && seg[0] == '.' && seg[1] == '.' {
        assert(seg@ =~= seq!['.', '.']);
        true
    } else {
        false
    }
}

/// Whether a segment is `.`.
fn seg_is_dot(seg: &Vec<char>) -> (r: bool)
    ensures
        r == (seg@ == seq!['.']),
{
    if seg.len() == 1 && seg[0] == '.' {
        assert(seg@ =~= seq!['.']);
        true
    } else {
        false
    }
}

/// The components of a path string.
pub fn path_components(path: &str) -> (r: Vec<PathComponent>)
    ensures
        comps_view(r@) == components(path@),
{
    let segs = split_segments(path);
    let chars = str_chars(path);
    let absolute = chars.len() > 0 && chars[0] == '/';
    let mut out: Vec<PathComponent> = Vec::new();
    if absolute {
        out.push(PathComponent::RootDir);
    }
    let ghost segv = segs@.map_values(|s: String| s@);
    let mut i: usize = 0;
    assert(segv.skip(0) == segv);
    while i < segs.len()
        invariant
            0 <= i <= segs@.len(),
            segv == segs@.map_values(|s: String| s@),
            segv == segments(path@),
            chars@ == path@,
            absolute == is_absolute(path@),
            comps_view(out@) + segment_comps(segv.skip(i as int), !absolute && i == 0) == components(path@),
        decreases segs@.len() - i,
    {
        let seg_chars = str_chars(segs[i].as_str());
        assert(seg_chars@ == segv[i as int]);
        let ghost rest = segv.skip(i as int);
        assert(rest.drop_first() == segv.skip(i + 1));
        assert(rest[0] == segv[i as int]);
        let ghost before = comps_view(out@);
        if seg_is_dotdot(&seg_chars) {
            out.push(PathComponent::ParentDir);
            assert(comps_view(out@) == before.push(Comp::Parent));
            assert(before + (seq![Comp::Parent] + segment_comps(rest.drop_first(), false)) == before.push(Comp::Parent) + segment_comps(rest.drop_first(), false));
        } else if seg_is_dot(&seg_chars) {
            if !absolute && i == 0 {
                out.push(PathComponent::CurDir);
                assert(comps_view(out@) == before.push(Comp::Cur));
                assert(before + (seq![Comp::Cur] + segment_comps(rest.drop_first(), false)) == before.push(Comp::Cur) + segment_comps(rest.drop_first(), false));
            }
        } else {
            let n = string_from_chars(&seg_chars);
            out.push(PathComponent::Normal(n));
            assert(comps_view(out@) == before.push(Comp::Normal(segv[i as int])));
            assert(before + (seq![Comp::Normal(segv[i as int])] + segment_comps(rest.drop_first(), false)) == before.push(Comp::Normal(segv[i as int])) + segment_comps(rest.drop_first(), false));
        }
        i += 1;
    }
    assert(segment_comps(segv.skip(i as int), !absolute && i == 0) == Seq::<Comp>::empty());
    assert(comps_view(out@) + Seq::<Comp>::empty() == comps_view(out@));
    out
}

/// `PathBuf::push` of a relative segment.
pub open spec fn push_segment(buf: Seq<char>, seg: Seq<char>) -> Seq<char> {
    if buf.len() == 0 {
        seg
    } else if buf.last() == '/' {
        buf + seg
    } else {
        buf.push('/') + seg
    }
}

/// `PathBuf::push` of a component.
pub open spec fn push_comp(buf: Seq<char>, c: Comp) -> Seq<char> {
    match c {
        Comp::Root => seq!['/'],
        Comp::Cur => push_segment(buf, seq!['.']),
        Comp::Parent => push_segment(buf, seq!['.', '.']),
        Comp::Normal(n) => push_segment(buf, n),
    }
}

/// The path string that collecting `comps` into a `PathBuf` gives.
pub open spec fn render(comps: Seq<Comp>) -> Seq<char>
    decreases comps.len(),
{
    if comps.len() == 0 {
        Seq::empty()
    } else {
        push_comp(render(comps.drop_last()), comps.last())
    }
}

/// Executable `push_comp`.
fn push_component(buf: &mut Vec<char>, c: &PathComponent)
    ensures
        final(buf)@ == push_comp(old(buf)@, c.view()),
{
    let seg: Vec<char> = match c {
        PathComponent::RootDir => {
            *buf = vec!['/'];
            assert(buf@ =~= seq!['/']);
            return;
        },
        PathComponent::CurDir => {
            let v = vec!['.'];
            assert(v@ =~= seq!['.']);
            v
        },
        PathComponent::ParentDir => {
            let v = vec!['.', '.'];
            assert(v@ =~= seq!['.', '.']);
            v
        },
        PathComponent::Normal(n) => str_chars(n.as_str()),
    };
    if buf.len() > 0 && buf[buf.len() - 1] != '/' {
        buf.push('/');
    }
    let mut i: usize = 0;
    let ghost start = buf@;
    while i < seg.len()
        invariant
            0 <= i <= seg@.len(),
            buf@ == start + seg@.take(i as int),
        decreases seg@.len() - i,
    {
        buf.push(seg[i]);
        assert(seg@.take(i + 1) == seg@.take(i as int).push(seg@[i as int]));
        i += 1;
    }
    assert(seg@.take(i as int) == seg@);
}

/// Collects components into a path string.
pub fn render_components(comps: &Vec<PathComponent>) -> (r: String)
    ensures
        r@ == render(comps_view(comps@)),
{
    let mut buf: Vec<char> = Vec::new();
    let mut i: usize = 0;
    while i < comps.len()
        invariant
            0 <= i <= comps@.len(),
            buf@ == render(comps_view(comps@.take(i as int))),
        decreases comps@.len() - i,
    {
        let ghost before = comps_view(comps@.take(i as int));
        push_component(&mut buf, &comps[i]);
        assert(comps_view(comps@.take(i + 1)).drop_last() == before);
        assert(comps_view(comps@.take(i + 1)).last() == comps@[i as int].view());
        i += 1;
    }
    assert(comps@.take(i as int) == comps@);
    string_from_chars(&buf)
}

/// One step of normalization: `.` is dropped, `..` removes a preceding normal
/// name (and is dropped where there is none), anything else is kept.
pub open spec fn resolve_step(acc: Seq<Comp>, c: Comp) -> Seq<Comp> {
    match c {
        Comp::Cur => acc,
        Comp::Parent => if acc.len() > 0 && acc.last() is Normal { acc.drop_last() } else { acc },
        _ => acc.push(c),
    }
}

/// Normalization of a component sequence, left to right.
pub open spec fn resolve_comps(comps: Seq<Comp>) -> Seq<Comp>
    decreases comps.len(),
{
    if comps.len() == 0 {
        Seq::empty()
    } else {
        resolve_step(resolve_comps(comps.drop_last()), comps.last())
    }
}

/// Resolves `.` and `..` components of a path without touching the file
/// system; `..` at the root is a no-op.
pub fn resolve_absolute_path(path: &str) -> (r: String)
    ensures
        r@ == render(resolve_comps(components(path@))),
{
    let comps = path_components(path);
    let mut out: Vec<PathComponent> = Vec::new();
    let mut i: usize = 0;
    while i < comps.len()
        invariant
            0 <= i <= comps@.len(),
            comps_view(comps@) == components(path@),
            comps_view(out@) == resolve_comps(comps_view(comps@.take(i as int))),
        decreases comps@.len() - i,
    {
        let ghost before = comps_view(out@);
        assert(comps_view(comps@.take(i + 1)).drop_last() == comps_view(comps@.take(i as int)));
        assert(comps_view(comps@.take(i + 1)).last() == comps@[i as int].view());
        match &comps[i] {
            PathComponent::CurDir => {},
            PathComponent::ParentDir => {
                if out.len() > 0 {
                    let last_is_normal = match &out[out.len() - 1] {
                        PathComponent::Normal(_) => true,
                        _ => false,
                    };
                    if last_is_normal {
                        out.pop();
                        assert(comps_view(out@) == before.drop_last());
                    }
                }
            },
            PathComponent::RootDir => {
                out.push(PathComponent::RootDir);
                assert(comps_view(out@) == before.push(Comp::Root));
            },
            PathComponent::Normal(n) => {
                let n2 = crate::text::string_clone(n.as_str());
                out.push(PathComponent::Normal(n2));
                assert(comps_view(out@) == before.push(comps@[i as int].view()));
            },
        }
        i += 1;
    }
    assert(comps@.take(i as int) == comps@);
    render_components(&out)
}

/// A copy of a component.
fn clone_component(c: &PathComponent) -> (r: PathComponent)
    ensures
        r.view() == c.view(),
{
    match c {
        PathComponent::RootDir => PathComponent::RootDir,
        PathComponent::CurDir => PathComponent::CurDir,
        PathComponent::ParentDir => PathComponent::ParentDir,
        PathComponent::Normal(n) => PathComponent::Normal(crate::text::string_clone(n.as_str())),
    }
}

/// Equality of two components.
fn component_eq(a: &PathComponent, b: &PathComponent) -> (r: bool)
    ensures
        r == (a.view() == b.view()),
{
    match (a, b) {
        (PathComponent::RootDir, PathComponent::RootDir) => true,
        (PathComponent::CurDir, PathComponent::CurDir) => true,
        (PathComponent::ParentDir, PathComponent::ParentDir) => true,
        (PathComponent::Normal(x), PathComponent::Normal(y)) => crate::text::str_eq(x.as_str(), y.as_str()),
        _ => false,
    }
}

/// Length of the longest common prefix of two component sequences.
pub open spec fn common_prefix_len(a: Seq<Comp>, b: Seq<Comp>) -> nat
    decreases a.len(),
{
    if a.len() == 0 || b.len() == 0 || a[0] != b[0] {
        0
    } else {
        1 + common_prefix_len(a.drop_first(), b.drop_first())
    }
}

/// The components of the path from `base` to `target`: one `..` for each
/// component of `base` past the common prefix, then the rest of `target`.
pub open spec fn relative_comps(target: Seq<Comp>, base: Seq<Comp>) -> Seq<Comp> {
    let common = common_prefix_len(target, base);
    Seq::new((base.len() - common) as nat, |i: int| Comp::Parent) + target.skip(common as int)
}

/// The common prefix is a prefix of both sequences.
proof fn lemma_common_prefix(a: Seq<Comp>, b: Seq<Comp>)
    ensures
        common_prefix_len(a, b) <= a.len(),
        common_prefix_len(a, b) <= b.len(),
        forall|i: int| 0 <= i < common_prefix_len(a, b) ==> a[i] == b[i],
        common_prefix_len(a, b) < a.len() && common_prefix_len(a, b) < b.len()
            ==> a[common_prefix_len(a, b) as int] != b[common_prefix_len(a, b) as int],
    decreases a.len(),
{
    if !(a.len() == 0 || b.len() == 0 || a[0] != b[0]) {
        lemma_common_prefix(a.drop_first(), b.drop_first());
        assert forall|i: int| 0 <= i < common_prefix_len(a, b) implies a[i] == b[i] by {
            if i > 0 {
                assert(a.drop_first()[i - 1] == b.drop_first()[i - 1]);
            }
        }
    }
}

/// Computes a relative path from `base` to `target`; both should be absolute
/// and normalized.
pub fn diff_paths(target: &str, base: &str) -> (r: String)
    ensures
        r@ == render(relative_comps(components(target@), components(base@))),
{
    let tc = path_components(target);
    let bc = path_components(base);
    let ghost tv = comps_view(tc@);
    let ghost bv = comps_view(bc@);
    let mut common: usize = 0;
    proof { lemma_common_prefix(tv, bv); }
    let mut same = common < tc.len() && common < bc.len() && component_eq(&tc[0], &bc[0]);
    while same
        invariant
            same ==> common < tc@.len() && common < bc@.len() && tv[common as int] == bv[common as int],
            !same ==> !(common < tv.len() && common < bv.len() && tv[common as int] == bv[common as int]),
            0 <= common <= tc@.len(),
            common <= bc@.len(),
            tv == comps_view(tc@),
            bv == comps_view(bc@),
            common <= common_prefix_len(tv, bv),
            common_prefix_len(tv, bv) <= tv.len(),
            common_prefix_len(tv, bv) <= bv.len(),
            forall|i: int| 0 <= i < common_prefix_len(tv, bv) ==> tv[i] == bv[i],
            common_prefix_len(tv, bv) < tv.len() && common_prefix_len(tv, bv) < bv.len()
                ==> tv[common_prefix_len(tv, bv) as int] != bv[common_prefix_len(tv, bv) as int],
        decreases tc@.len() - common,
    {
        common += 1;
        same = common < tc.len() && common < bc.len() && component_eq(&tc[common], &bc[common]);
    }
    assert(common < tc@.len() && common < bc@.len() ==> tv[common as int] == tc@[common as int].view() && bv[common as int] == bc@[common as int].view());
    assert(common == common_prefix_len(tv, bv));
    let mut out: Vec<PathComponent> = Vec::new();
    let mut k: usize = common;
    while k < bc.len()
        invariant
            common <= k <= bc@.len(),
            comps_view(out@) == Seq::new((k - common) as nat, |i: int| Comp::Parent),
        decreases bc@.len() - k,
    {
        let ghost before = comps_view(out@);
        out.push(PathComponent::ParentDir);
        assert(comps_view(out@) == before.push(Comp::Parent));
        assert(comps_view(out@) =~= Seq::new((k + 1 - common) as nat, |i: int| Comp::Parent));
        k += 1;
    }
    let ghost parents = comps_view(out@);
    let mut j: usize = common;
    while j < tc.len()
        invariant
            common <= j <= tc@.len(),
            tv == comps_view(tc@),
            comps_view(out@) == parents + tv.subrange(common as int, j as int),
        decreases tc@.len() - j,
    {
        let c = clone_component(&tc[j]);
        let ghost before = comps_view(out@);
        out.push(c);
        assert(comps_view(out@) == before.push(tv[j as int]));
        assert(tv.subrange(common as int, j + 1) == tv.subrange(common as int, j as int).push(tv[j as int]));
        assert(comps_view(out@) =~= parents + tv.subrange(common as int, j + 1));
        j += 1;
    }
    assert(tv.subrange(common as int, j as int) == tv.skip(common as int));
    render_components(&out)
}

/// Normalization of `s` continued from an already normalized prefix `acc`.
pub open spec fn resolve_onto(acc: Seq<Comp>, s: Seq<Comp>) -> Seq<Comp>
    decreases s.len(),
{
    if s.len() == 0 {
        acc
    } else {
        resolve_step(resolve_onto(acc, s.drop_last()), s.last())
    }
}

/// A normalized absolute path: the root followed by normal names only.
pub open spec fn is_normalized_absolute(s: Seq<Comp>) -> bool {
    s.len() > 0 && s[0] == Comp::Root && forall|i: int| 1 <= i < s.len() ==> (#[trigger] s[i]) is Normal
}

proof fn lemma_resolve_onto_empty(s: Seq<Comp>)
    ensures
        resolve_onto(Seq::empty(), s) == resolve_comps(s),
    decreases s.len(),
{
    if s.len() > 0 {
        lemma_resolve_onto_empty(s.drop_last());
    }
}

proof fn lemma_resolve_onto_concat(acc: Seq<Comp>, a: Seq<Comp>, b: Seq<Comp>)
    ensures
        resolve_onto(acc, a + b) == resolve_onto(resolve_onto(acc, a), b),
    decreases b.len(),
{
    if b.len() == 0 {
        assert(a + b =~= a);
    } else {
        assert((a + b).drop_last() =~= a + b.drop_last());
        assert((a + b).last() == b.last());
        lemma_resolve_onto_concat(acc, a, b.drop_last());
    }
}

/// Names and roots are appended unchanged.
proof fn lemma_resolve_onto_plain(acc: Seq<Comp>, s: Seq<Comp>)
    requires
        forall|i: int| 0 <= i < s.len() ==> (#[trigger] s[i]) is Normal || s[i] is Root,
    ensures
        resolve_onto(acc, s) == acc + s,
    decreases s.len(),
{
    if s.len() == 0 {
        assert(acc + s =~= acc);
    } else {
        lemma_resolve_onto_plain(acc, s.drop_last());
        assert(acc + s.drop_last() + seq![s.last()] =~= acc + s);
        assert((acc + s.drop_last()).push(s.last()) =~= acc + s);
    }
}

/// Each `..` removes one trailing name.
proof fn lemma_resolve_onto_parents(acc: Seq<Comp>, k: nat)
    requires
        k <= acc.len(),
        forall|i: int| acc.len() - k <= i < acc.len() ==> (#[trigger] acc[i]) is Normal,
    ensures
        resolve_onto(acc, Seq::new(k, |i: int| Comp::Parent)) == acc.take(acc.len() - k),
    decreases k,
{
    if k == 0 {
        assert(acc.take(acc.len() as int) =~= acc);
    } else {
        let ps = Seq::new(k, |i: int| Comp::Parent);
        assert(ps.drop_last() =~= Seq::new((k - 1) as nat, |i: int| Comp::Parent));
        lemma_resolve_onto_parents(acc, (k - 1) as nat);
        let mid = acc.take(acc.len() - (k - 1));
        assert(mid.last() == acc[acc.len() - k]);
        assert(mid.drop_last() =~= acc.take(acc.len() - k));
    }
}

/// Law: following the relative path from a normalized absolute `base` leads to
/// the normalized absolute `target`: resolving `base` joined with the
/// components `diff_paths` renders gives back `target`.
pub proof fn law_diff_paths_roundtrip(target: Seq<Comp>, base: Seq<Comp>)
    requires
        is_normalized_absolute(target),
        is_normalized_absolute(base),
    ensures
        resolve_comps(base + relative_comps(target, base)) == target,
{
    lemma_common_prefix(target, base);
    let c = common_prefix_len(target, base);
    assert(target[0] == base[0]);
    assert(c >= 1) by {
        assert(common_prefix_len(target, base) == 1 + common_prefix_len(target.drop_first(), base.drop_first()));
    }
    let ps = Seq::new((base.len() - c) as nat, |i: int| Comp::Parent);
    let rest = target.skip(c as int);
    lemma_resolve_onto_empty(base + relative_comps(target, base));
    assert(base + relative_comps(target, base) =~= (base + ps) + rest);
    lemma_resolve_onto_concat(Seq::empty(), base + ps, rest);
    lemma_resolve_onto_concat(Seq::empty(), base, ps);
    assert forall|i: int| 0 <= i < base.len() implies (#[trigger] base[i]) is Normal || base[i] is Root by {
        if i >= 1 { assert(base[i] is Normal); }
    }
    lemma_resolve_onto_plain(Seq::empty(), base);
    assert(Seq::<Comp>::empty() + base =~= base);
    lemma_resolve_onto_parents(base, (base.len() - c) as nat);
    assert(base.take(c as int) =~= target.take(c as int));
    assert forall|i: int| 0 <= i < rest.len() implies (#[trigger] rest[i]) is Normal || rest[i] is Root by {
        assert(rest[i] == target[i + c]);
    }
    lemma_resolve_onto_plain(target.take(c as int), rest);
    assert(target.take(c as int) + rest =~= target);
}

/// A name that reads back as itself: not empty, without `/`, not `.` or `..`.
pub open spec fn plain_name(n: Seq<char>) -> bool {
    n.len() > 0 && !n.contains('/') && n != seq!['.'] && n != seq!['.', '.']
}

/// Components of a relative path: parents and plain names.
pub open spec fn rel_ok(cs: Seq<Comp>) -> bool {
    forall|i: int| 0 <= i < cs.len() ==> (#[trigger] cs[i]) is Parent || (cs[i] is Normal && plain_name(cs[i]->Normal_0))
}

/// The segment a parent or normal component is written as.
pub open spec fn comp_seg(c: Comp) -> Seq<char> {
    match c {
        Comp::Normal(n) => n,
        _ => seq!['.', '.'],
    }
}

proof fn lemma_segments_plain(s: Seq<char>, cur: Seq<char>)
    requires
        !s.contains('/'),
        cur.len() + s.len() > 0,
    ensures
        segments_from(s, cur) == seq![cur + s],
    decreases s.len(),
{
    if s.len() == 0 {
        assert(cur + s =~= cur);
    } else {
        assert(s[0] != '/') by {
            if s[0] == '/' {
                assert(s.contains('/'));
            }
        }
        assert(!s.drop_first().contains('/')) by {
            if s.drop_first().contains('/') {
                let k = choose|k: int| 0 <= k < s.drop_first().len() && s.drop_first()[k] == '/';
                assert(s[k + 1] == '/');
            }
        }
        lemma_segments_plain(s.drop_first(), cur.push(s[0]));
        assert(cur.push(s[0]) + s.drop_first() =~= cur + s);
    }
}

proof fn lemma_segments_split(a: Seq<char>, b: Seq<char>, cur: Seq<char>)
    requires
        b.len() > 0,
        b[0] == '/',
    ensures
        segments_from(a + b, cur) == segments_from(a, cur) + segments_from(b, Seq::empty()),
    decreases a.len(),
{
    if a.len() == 0 {
        assert(a + b =~= b);
        let flush = if cur.len() == 0 { Seq::<Seq<char>>::empty() } else { seq![cur] };
        assert(segments_from(b, cur) == flush + segments_from(b.drop_first(), Seq::empty()));
        assert(segments_from(b, Seq::empty()) == Seq::<Seq<char>>::empty() + segments_from(b.drop_first(), Seq::empty()));
        assert(Seq::<Seq<char>>::empty() + segments_from(b.drop_first(), Seq::empty()) =~= segments_from(b.drop_first(), Seq::empty()));
    } else {
        assert((a + b).drop_first() =~= a.drop_first() + b);
        if a[0] == '/' {
            lemma_segments_split(a.drop_first(), b, Seq::empty());
            let flush = if cur.len() == 0 { Seq::<Seq<char>>::empty() } else { seq![cur] };
            assert(flush + (segments_from(a.drop_first(), Seq::empty()) + segments_from(b, Seq::empty())) =~= (flush
                + segments_from(a.drop_first(), Seq::empty())) + segments_from(b, Seq::empty()));
        } else {
            lemma_segments_split(a.drop_first(), b, cur.push(a[0]));
        }
    }
}

proof fn lemma_render_rel(cs: Seq<Comp>)
    requires
        rel_ok(cs),
    ensures
        cs.len() > 0 ==> render(cs).len() > 0 && render(cs)[0] != '/' && render(cs).last() != '/',
        segments(render(cs)) == cs.map_values(|c: Comp| comp_seg(c)),
    decreases cs.len(),
{
    let segs = cs.map_values(|c: Comp| comp_seg(c));
    if cs.len() == 0 {
        assert(segments(render(cs)) =~= segs);
    } else {
        let d = cs.drop_last();
        assert(rel_ok(d)) by {
            assert forall|i: int| 0 <= i < d.len() implies (#[trigger] d[i]) is Parent || (d[i] is Normal && plain_name(d[i]->Normal_0)) by {
                assert(d[i] == cs[i]);
            }
        }
        lemma_render_rel(d);
        let c = cs.last();
        assert(c == cs[cs.len() - 1]);
        let seg = comp_seg(c);
        assert(plain_name(seg) || seg == seq!['.', '.']);
        assert(seg.len() > 0);
        assert(!seg.contains('/')) by {
            if c is Parent {
                if seg.contains('/') {
                    let k = choose|k: int| 0 <= k < seg.len() && seg[k] == '/';
                }
            }
        }
        assert(seg[0] != '/' && seg.last() != '/') by {
            assert(seg.contains(seg[0]));
            assert(seg.contains(seg[seg.len() - 1]));
        }
        let a = render(d);
        assert(render(cs) == push_comp(a, c));
        assert(push_comp(a, c) == push_segment(a, seg));
        lemma_segments_plain(seg, Seq::empty());
        assert(Seq::<char>::empty() + seg =~= seg);
        if d.len() == 0 {
            assert(a == Seq::<char>::empty());
            assert(render(cs) == seg);
            assert(segs =~= seq![seg]);
        } else {
            assert(render(cs) == a.push('/') + seg);
            assert(a.push('/') + seg =~= a + (seq!['/'] + seg));
            lemma_segments_split(a, seq!['/'] + seg, Seq::empty());
            assert((seq!['/'] + seg).drop_first() =~= seg);
            assert(segments_from(seq!['/'] + seg, Seq::empty()) == Seq::<Seq<char>>::empty() + segments_from(seg, Seq::empty()));
            assert(segs =~= d.map_values(|c: Comp| comp_seg(c)).push(seg));
            assert(render(cs)[0] == a[0]);
        }
    }
}

proof fn lemma_segment_comps_rel(cs: Seq<Comp>, keep: bool)
    requires
        rel_ok(cs),
    ensures
        segment_comps(cs.map_values(|c: Comp| comp_seg(c)), keep) == cs,
    decreases cs.len(),
{
    let segs = cs.map_values(|c: Comp| comp_seg(c));
    if cs.len() > 0 {
        let r = cs.drop_first();
        assert(rel_ok(r)) by {
            assert forall|i: int| 0 <= i < r.len() implies (#[trigger] r[i]) is Parent || (r[i] is Normal && plain_name(r[i]->Normal_0)) by {
                assert(r[i] == cs[i + 1]);
            }
        }
        lemma_segment_comps_rel(r, false);
        assert(segs.drop_first() =~= r.map_values(|c: Comp| comp_seg(c)));
        assert(cs[0] is Parent || (cs[0] is Normal && plain_name(cs[0]->Normal_0)));
        assert(segment_comp(segs[0]) == cs[0]);
        assert(seq![cs[0]] + r =~= cs);
    }
}

proof fn lemma_segments_from_plain(s: Seq<char>, cur: Seq<char>)
    requires
        !cur.contains('/'),
    ensures
        forall|i: int| 0 <= i < segments_from(s, cur).len() ==> (#[trigger] segments_from(s, cur)[i]).len() > 0
            && !segments_from(s, cur)[i].contains('/'),
    decreases s.len(),
{
    let flush = if cur.len() == 0 { Seq::<Seq<char>>::empty() } else { seq![cur] };
    assert forall|i: int| 0 <= i < flush.len() implies (#[trigger] flush[i]).len() > 0 && !flush[i].contains('/') by {
        assert(flush[i] == cur);
    }
    if s.len() == 0 {
        assert(segments_from(s, cur) == flush);
    } else {
        if s[0] == '/' {
            lemma_segments_from_plain(s.drop_first(), Seq::empty());
            let rest = segments_from(s.drop_first(), Seq::empty());
            assert(segments_from(s, cur) == flush + rest);
            assert forall|i: int| 0 <= i < (flush + rest).len() implies (#[trigger] (flush + rest)[i]).len() > 0 && !(flush
                + rest)[i].contains('/') by {
                if i < flush.len() {
                    assert((flush + rest)[i] == flush[i]);
                } else {
                    assert((flush + rest)[i] == rest[i - flush.len()]);
                }
            }
        } else {
            assert(!cur.push(s[0]).contains('/')) by {
                if cur.push(s[0]).contains('/') {
                    let k = choose|k: int| 0 <= k < cur.push(s[0]).len() && cur.push(s[0])[k] == '/';
                    if k < cur.len() {
                        assert(cur[k] == '/');
                    }
                }
            }
            lemma_segments_from_plain(s.drop_first(), cur.push(s[0]));
            assert(segments_from(s, cur) == segments_from(s.drop_first(), cur.push(s[0])));
        }
    }
}

proof fn lemma_segment_comps_normal(segs: Seq<Seq<char>>, keep: bool)
    requires
        forall|i: int| 0 <= i < segs.len() ==> (#[trigger] segs[i]).len() > 0 && !segs[i].contains('/'),
    ensures
        forall|i: int| 0 <= i < segment_comps(segs, keep).len() && (#[trigger] segment_comps(segs, keep)[i]) is Normal
            ==> plain_name(segment_comps(segs, keep)[i]->Normal_0),
    decreases segs.len(),
{
    if segs.len() > 0 {
        let r = segs.drop_first();
        assert forall|i: int| 0 <= i < r.len() implies (#[trigger] r[i]).len() > 0 && !r[i].contains('/') by {
            assert(r[i] == segs[i + 1]);
        }
        lemma_segment_comps_normal(r, false);
    }
}

/// The normal components of a path string are plain names.
proof fn lemma_components_plain(s: Seq<char>)
    ensures
        forall|i: int| 0 <= i < components(s).len() && (#[trigger] components(s)[i]) is Normal ==> plain_name(
            components(s)[i]->Normal_0,
        ),
{
    lemma_segments_from_plain(s, Seq::empty());
    let segs = segments(s);
    if is_absolute(s) {
        lemma_segment_comps_normal(segs, false);
        let sc = segment_comps(segs, false);
        assert forall|i: int| 0 <= i < components(s).len() && (#[trigger] components(s)[i]) is Normal implies plain_name(
            components(s)[i]->Normal_0,
        ) by {
            assert(i > 0);
            assert(components(s)[i] == sc[i - 1]);
        }
    } else {
        lemma_segment_comps_normal(segs, true);
    }
}

/// Law: the relative path `diff_paths` writes between two normalized
/// absolute paths reads back as the components it was written from, so
/// following it from `base` leads to `target`.
pub proof fn law_diff_paths_string_roundtrip(target: Seq<char>, base: Seq<char>)
    requires
        is_normalized_absolute(components(target)),
        is_normalized_absolute(components(base)),
    ensures
        ({
            let rel = relative_comps(components(target), components(base));
            &&& components(render(rel)) == rel
            &&& resolve_comps(components(base) + components(render(rel))) == components(target)
        }),
{
    let t = components(target);
    let b = components(base);
    let rel = relative_comps(t, b);
    lemma_common_prefix(t, b);
    let c = common_prefix_len(t, b);
    assert(c >= 1) by {
        assert(t[0] == b[0]);
        assert(common_prefix_len(t, b) == 1 + common_prefix_len(t.drop_first(), b.drop_first()));
    }
    lemma_components_plain(target);
    let np = (b.len() - c) as nat;
    assert(rel_ok(rel)) by {
        assert forall|i: int| 0 <= i < rel.len() implies (#[trigger] rel[i]) is Parent || (rel[i] is Normal && plain_name(rel[i]->Normal_0)) by {
            if i >= np {
                assert(rel[i] == t[i - np + c]);
                assert(t[i - np + c] is Normal);
            }
        }
    }
    lemma_render_rel(rel);
    let r = render(rel);
    if rel.len() > 0 {
        assert(!is_absolute(r));
    } else {
        assert(r == Seq::<char>::empty());
    }
    lemma_segment_comps_rel(rel, true);
    assert(components(r) == rel);
    law_diff_paths_roundtrip(t, b);
}

/// The final component of a path when it is a normal name (`Path::file_name`).
pub open spec fn file_name(s: Seq<char>) -> Option<Seq<char>> {
    let c = components(s);
    if c.len() > 0 && c.last() is Normal {
        Some(c.last()->Normal_0)
    } else {
        None
    }
}

/// Index of the last `.` of a name.
pub open spec fn last_dot(n: Seq<char>) -> Option<int>
    decreases n.len(),
{
    if n.len() == 0 {
        None
    } else if n.last() == '.' {
        Some(n.len() - 1)
    } else {
        last_dot(n.drop_last())
    }
}

/// The last dot lies within the name and is a dot.
pub proof fn lemma_last_dot(n: Seq<char>)
    ensures
        last_dot(n) is Some ==> 0 <= last_dot(n)->0 < n.len() && n[last_dot(n)->0] == '.',
        last_dot(n) is Some ==> forall|j: int| last_dot(n)->0 < j < n.len() ==> n[j] != '.',
        last_dot(n) is None ==> forall|j: int| 0 <= j < n.len() ==> n[j] != '.',
    decreases n.len(),
{
    if n.len() > 0 && n.last() != '.' {
        lemma_last_dot(n.drop_last());
        assert forall|j: int| 0 <= j < n.len() - 1 implies n[j] == n.drop_last()[j] by {}
    }
}

/// The stem of a file name (`Path::file_stem`): the part before the last `.`,
/// or the whole name when it has no `.`, starts with its only `.`, or is `..`.
pub open spec fn name_stem(n: Seq<char>) -> Seq<char> {
    if n == seq!['.', '.'] {
        n
    } else {
        match last_dot(n) {
            Some(d) => if d == 0 { n } else { n.take(d) },
            None => n,
        }
    }
}

/// The extension of a file name (`Path::extension`).
pub open spec fn name_extension(n: Seq<char>) -> Option<Seq<char>> {
    if n == seq!['.', '.'] {
        None
    } else {
        match last_dot(n) {
            Some(d) => if d == 0 { None } else { Some(n.skip(d + 1)) },
            None => None,
        }
    }
}

/// The file name of a path.
pub fn path_file_name(path: &str) -> (r: Option<String>)
    ensures
        match r {
            Some(n) => file_name(path@) == Some(n@),
            None => file_name(path@).is_none(),
        },
{
    let comps = path_components(path);
    if comps.len() == 0 {
        return None;
    }
    let ghost cv = comps_view(comps@);
    assert(cv.last() == comps@[comps@.len() - 1].view());
    match &comps[comps.len() - 1] {
        PathComponent::Normal(n) => Some(crate::text::string_clone(n.as_str())),
        _ => None,
    }
}

/// The index of the last `.` of a name.
fn find_last_dot(n: &Vec<char>) -> (r: Option<usize>)
    ensures
        match r {
            Some(d) => last_dot(n@) == Some(d as int) && d < n@.len(),
            None => last_dot(n@).is_none(),
        },
{
    proof { lemma_last_dot(n@); }
    let mut i: usize = n.len();
    assert(n@.take(n@.len() as int) == n@);
    while i > 0
        invariant
            0 <= i <= n@.len(),
            last_dot(n@) == last_dot(n@.take(i as int)),
        decreases i,
    {
        let ghost t = n@.take(i as int);
        assert(t.drop_last() == n@.take(i - 1));
        if n[i - 1] == '.' {
            return Some(i - 1);
        }
        i -= 1;
    }
    None
}

/// Whether a name is `..`.
fn is_dotdot_name(n: &Vec<char>) -> (r: bool)
    ensures
        r == (n@ == seq!['.', '.']),
{
    if n.len() == 2 && n[0] == '.' && n[1] == '.' {
        assert(n@ =~= seq!['.', '.']);
        true
    } else {
        false
    }
}

/// The extension of a name.
pub fn name_extension_of(n: &Vec<char>) -> (r: Option<Vec<char>>)
    ensures
        match r {
            Some(e) => name_extension(n@) == Some(e@),
            None => name_extension(n@).is_none(),
        },
{
    if is_dotdot_name(n) {
        return None;
    }
    match find_last_dot(n) {
        Some(d) => {
            if d == 0 {
                None
            } else {
                let mut e: Vec<char> = Vec::new();
                let nl = n.len();
                assert(d < nl);
                let mut i: usize = d + 1;
                while i < n.len()
                    invariant
                        d + 1 <= i <= n@.len(),
                        e@ == n@.subrange(d + 1, i as int),
                    decreases n@.len() - i,
                {
                    e.push(n[i]);
                    assert(n@.subrange(d + 1, i + 1) == n@.subrange(d + 1, i as int).push(n@[i as int]));
                    i += 1;
                }
                assert(n@.subrange(d + 1, i as int) == n@.skip(d + 1));
                Some(e)
            }
        },
        None => None,
    }
}

/// The stem of a name.
pub fn name_stem_of(n: &Vec<char>) -> (r: Vec<char>)
    ensures
        r@ == name_stem(n@),
{
    if is_dotdot_name(n) {
        return n.clone();
    }
    match find_last_dot(n) {
        Some(d) => {
            if d == 0 {
                n.clone()
            } else {
                let mut e: Vec<char> = Vec::new();
                let mut i: usize = 0;
                while i < d
                    invariant
                        0 <= i <= d,
                        d < n@.len(),
                        e@ == n@.take(i as int),
                    decreases d - i,
                {
                    e.push(n[i]);
                    assert(n@.take(i + 1) == n@.take(i as int).push(n@[i as int]));
                    i += 1;
                }
                e
            }
        },
        None => n.clone(),
    }
}

/// Whether a resolved file has a TypeScript-family extension: the file name
/// ends with `.d.ts`, `.d.mts` or `.d.cts`, or its extension is `ts`, `mts`,
/// `cts` or `tsx`.
pub open spec fn is_ts_file_spec(path: Seq<char>) -> bool {
    let name = match file_name(path) {
        Some(n) => n,
        None => Seq::empty(),
    };
    has_suffix(name, seq!['.', 'd', '.', 't', 's']) || has_suffix(name, seq!['.', 'd', '.', 'm', 't', 's'])
        || has_suffix(name, seq!['.', 'd', '.', 'c', 't', 's']) || match name_extension(name) {
        Some(e) => e == seq!['t', 's'] || e == seq!['m', 't', 's'] || e == seq!['c', 't', 's'] || e
            == seq!['t', 's', 'x'],
        None => false,
    }
}

/// Law (TypeScript files): a path whose file name ends in `.d.ts`, `.d.mts`
/// or `.d.cts`, or whose extension is `ts`, `mts`, `cts` or `tsx`, is a
/// TypeScript file; a path whose file name does none of these is not.
pub proof fn law_typescript_files(path: Seq<char>)
    ensures
        is_ts_file_spec(path) == (file_name(path) matches Some(n) && (has_suffix(n, ".d.ts"@) || has_suffix(
            n,
            ".d.mts"@,
        ) || has_suffix(n, ".d.cts"@) || name_extension(n) == Some("ts"@) || name_extension(n) == Some("mts"@)
            || name_extension(n) == Some("cts"@) || name_extension(n) == Some("tsx"@))),
{
    reveal_strlit(".d.ts");
    reveal_strlit(".d.mts");
    reveal_strlit(".d.cts");
    reveal_strlit("ts");
    reveal_strlit("mts");
    reveal_strlit("cts");
    reveal_strlit("tsx");
    assert(".d.ts"@ =~= seq!['.', 'd', '.', 't', 's']);
    assert(".d.mts"@ =~= seq!['.', 'd', '.', 'm', 't', 's']);
    assert(".d.cts"@ =~= seq!['.', 'd', '.', 'c', 't', 's']);
    assert("ts"@ =~= seq!['t', 's']);
    assert("mts"@ =~= seq!['m', 't', 's']);
    assert("cts"@ =~= seq!['c', 't', 's']);
    assert("tsx"@ =~= seq!['t', 's', 'x']);
    if file_name(path) is None {
        let e = Seq::<char>::empty();
        assert(!has_suffix(e, seq!['.', 'd', '.', 't', 's']));
        assert(!has_suffix(e, seq!['.', 'd', '.', 'm', 't', 's']));
        assert(!has_suffix(e, seq!['.', 'd', '.', 'c', 't', 's']));
        assert(last_dot(e) is None);
        assert(name_extension(e) is None);
    }
}

/// Returns `true` if the path has a TypeScript-family extension that can be parsed.
pub fn is_ts_file(path: &str) -> (r: bool)
    ensures
        r == is_ts_file_spec(path@),
{
    let name: Vec<char> = match path_file_name(path) {
        Some(n) => str_chars(n.as_str()),
        None => Vec::new(),
    };
    let s1 = literal_chars(".d.ts");
    let s2 = literal_chars(".d.mts");
    let s3 = literal_chars(".d.cts");
    proof {
        reveal_strlit(".d.ts");
        reveal_strlit(".d.mts");
        reveal_strlit(".d.cts");
        assert(s1@ =~= seq!['.', 'd', '.', 't', 's']);
        assert(s2@ =~= seq!['.', 'd', '.', 'm', 't', 's']);
        assert(s3@ =~= seq!['.', 'd', '.', 'c', 't', 's']);
    }
    if chars_ends_with(&name, &s1) || chars_ends_with(&name, &s2) || chars_ends_with(&name, &s3) {
        return true;
    }
    match name_extension_of(&name) {
        Some(e) => {
            let ts = literal_chars("ts");
            let mts = literal_chars("mts");
            let cts = literal_chars("cts");
            let tsx = literal_chars("tsx");
            proof {
                reveal_strlit("ts");
                reveal_strlit("mts");
                reveal_strlit("cts");
                reveal_strlit("tsx");
                assert(ts@ =~= seq!['t', 's']);
                assert(mts@ =~= seq!['m', 't', 's']);
                assert(cts@ =~= seq!['c', 't', 's']);
                assert(tsx@ =~= seq!['t', 's', 'x']);
            }
            chars_eq(&e, &ts) || chars_eq(&e, &mts) || chars_eq(&e, &cts) || chars_eq(&e, &tsx)
        },
        None => false,
    }
}

/// The text of a component as `Component::as_os_str` gives it.
pub open spec fn comp_text(c: Comp) -> Seq<char> {
    match c {
        Comp::Root => seq!['/'],
        Comp::Cur => seq!['.'],
        Comp::Parent => seq!['.', '.'],
        Comp::Normal(n) => n,
    }
}

/// Whether any component of `path` reads `component`.
pub fn path_has_component(path: &str, component: &str) -> (r: bool)
    ensures
        r == exists|i: int| 0 <= i < components(path@).len() && comp_text(#[trigger] components(path@)[i]) == component@,
{
    let comps = path_components(path);
    let target = str_chars(component);
    let root = literal_chars("/");
    let cur = literal_chars(".");
    let parent = literal_chars("..");
    proof {
        reveal_strlit("/");
        reveal_strlit(".");
        reveal_strlit("..");
        assert(root@ =~= seq!['/']);
        assert(cur@ =~= seq!['.']);
        assert(parent@ =~= seq!['.', '.']);
    }
    let ghost cv = comps_view(comps@);
    let mut i: usize = 0;
    while i < comps.len()
        invariant
            0 <= i <= comps@.len(),
            cv == comps_view(comps@),
            cv == components(path@),
            target@ == component@,
            root@ == seq!['/'],
            cur@ == seq!['.'],
            parent@ == seq!['.', '.'],
            forall|j: int| 0 <= j < i ==> comp_text(#[trigger] cv[j]) != component@,
        decreases comps@.len() - i,
    {
        let text: Vec<char> = match &comps[i] {
            PathComponent::RootDir => root.clone(),
            PathComponent::CurDir => cur.clone(),
            PathComponent::ParentDir => parent.clone(),
            PathComponent::Normal(n) => str_chars(n.as_str()),
        };
        assert(text@ == comp_text(cv[i as int]));
        if chars_eq(&text, &target) {
            return true;
        }
        i += 1;
    }
    false
}

/// Whether a specifier is relative (starts with `.` or `/`).
pub fn is_relative_specifier(specifier: &str) -> (r: bool)
    ensures
        r == (specifier@.len() > 0 && (specifier@[0] == '.' || specifier@[0] == '/')),
{
    let c = str_chars(specifier);
    c.len() > 0 && (c[0] == '.' || c[0] == '/')
}

/// Extensions of assets that have no declaration file (styles, images, fonts, media).
pub open spec fn asset_extensions() -> Seq<Seq<char>> {
    seq![
        seq!['c', 's', 's'], seq!['s', 'c', 's', 's'], seq!['s', 'a', 's', 's'], seq!['l', 'e', 's', 's'],
        seq!['s', 't', 'y', 'l'], seq!['s', 't', 'y', 'l', 'u', 's'], seq!['p', 'c', 's', 's'],
        seq!['p', 'o', 's', 't', 'c', 's', 's'], seq!['s', 'v', 'g'], seq!['p', 'n', 'g'], seq!['j', 'p', 'g'],
        seq!['j', 'p', 'e', 'g'], seq!['g', 'i', 'f'], seq!['w', 'e', 'b', 'p'], seq!['i', 'c', 'o'],
        seq!['w', 'o', 'f', 'f'], seq!['w', 'o', 'f', 'f', '2'], seq!['e', 'o', 't'], seq!['t', 't', 'f'],
        seq!['o', 't', 'f'], seq!['m', 'p', '3'], seq!['m', 'p', '4'], seq!['w', 'e', 'b', 'm']
    ]
}

/// The asset extensions as character vectors.
fn asset_extension_list() -> (r: Vec<Vec<char>>)
    ensures
        r@.len() == asset_extensions().len(),
        forall|i: int| 0 <= i < r@.len() ==> (#[trigger] r@[i])@ == asset_extensions()[i],
{
    let mut r: Vec<Vec<char>> = Vec::new();
    let v = literal_chars("css");
    proof { reveal_strlit("css"); assert(v@ =~= seq!['c', 's', 's']); }
    r.push(v);
    let v = literal_chars("scss");
    proof { reveal_strlit("scss"); assert(v@ =~= seq!['s', 'c', 's', 's']); }
    r.push(v);
    let v = literal_chars("sass");
    proof { reveal_strlit("sass"); assert(v@ =~= seq!['s', 'a', 's', 's']); }
    r.push(v);
    let v = literal_chars("less");
    proof { reveal_strlit("less"); assert(v@ =~= seq!['l', 'e', 's', 's']); }
    r.push(v);
    let v = literal_chars("styl");
    proof { reveal_strlit("styl"); assert(v@ =~= seq!['s', 't', 'y', 'l']); }
    r.push(v);
    let v = literal_chars("stylus");
    proof { reveal_strlit("stylus"); assert(v@ =~= seq!['s', 't', 'y', 'l', 'u', 's']); }
    r.push(v);
    let v = literal_chars("pcss");
    proof { reveal_strlit("pcss"); assert(v@ =~= seq!['p', 'c', 's', 's']); }
    r.push(v);
    let v = literal_chars("postcss");
    proof { reveal_strlit("postcss"); assert(v@ =~= seq!['p', 'o', 's', 't', 'c', 's', 's']); }
    r.push(v);
    let v = literal_chars("svg");
    proof { reveal_strlit("svg"); assert(v@ =~= seq!['s', 'v', 'g']); }
    r.push(v);
    let v = literal_chars("png");
    proof { reveal_strlit("png"); assert(v@ =~= seq!['p', 'n', 'g']); }
    r.push(v);
    let v = literal_chars("jpg");
    proof { reveal_strlit("jpg"); assert(v@ =~= seq!['j', 'p', 'g']); }
    r.push(v);
    let v = literal_chars("jpeg");
    proof { reveal_strlit("jpeg"); assert(v@ =~= seq!['j', 'p', 'e', 'g']); }
    r.push(v);
    let v = literal_chars("gif");
    proof { reveal_strlit("gif"); assert(v@ =~= seq!['g', 'i', 'f']); }
    r.push(v);
    let v = literal_chars("webp");
    proof { reveal_strlit("webp"); assert(v@ =~= seq!['w', 'e', 'b', 'p']); }
    r.push(v);
    let v = literal_chars("ico");
    proof { reveal_strlit("ico"); assert(v@ =~= seq!['i', 'c', 'o']); }
    r.push(v);
    let v = literal_chars("woff");
    proof { reveal_strlit("woff"); assert(v@ =~= seq!['w', 'o', 'f', 'f']); }
    r.push(v);
    let v = literal_chars("woff2");
    proof { reveal_strlit("woff2"); assert(v@ =~= seq!['w', 'o', 'f', 'f', '2']); }
    r.push(v);
    let v = literal_chars("eot");
    proof { reveal_strlit("eot"); assert(v@ =~= seq!['e', 'o', 't']); }
    r.push(v);
    let v = literal_chars("ttf");
    proof { reveal_strlit("ttf"); assert(v@ =~= seq!['t', 't', 'f']); }
    r.push(v);
    let v = literal_chars("otf");
    proof { reveal_strlit("otf"); assert(v@ =~= seq!['o', 't', 'f']); }
    r.push(v);
    let v = literal_chars("mp3");
    proof { reveal_strlit("mp3"); assert(v@ =~= seq!['m', 'p', '3']); }
    r.push(v);
    let v = literal_chars("mp4");
    proof { reveal_strlit("mp4"); assert(v@ =~= seq!['m', 'p', '4']); }
    r.push(v);
    let v = literal_chars("webm");
    proof { reveal_strlit("webm"); assert(v@ =~= seq!['w', 'e', 'b', 'm']); }
    r.push(v);
    assert(r@.len() == asset_extensions().len());
    proof {
        assert(r@[0]@ == asset_extensions()[0]);
        assert(r@[1]@ == asset_extensions()[1]);
        assert(r@[2]@ == asset_extensions()[2]);
        assert(r@[3]@ == asset_extensions()[3]);
        assert(r@[4]@ == asset_extensions()[4]);
        assert(r@[5]@ == asset_extensions()[5]);
        assert(r@[6]@ == asset_extensions()[6]);
        assert(r@[7]@ == asset_extensions()[7]);
        assert(r@[8]@ == asset_extensions()[8]);
        assert(r@[9]@ == asset_extensions()[9]);
        assert(r@[10]@ == asset_extensions()[10]);
        assert(r@[11]@ == asset_extensions()[11]);
        assert(r@[12]@ == asset_extensions()[12]);
        assert(r@[13]@ == asset_extensions()[13]);
        assert(r@[14]@ == asset_extensions()[14]);
        assert(r@[15]@ == asset_extensions()[15]);
        assert(r@[16]@ == asset_extensions()[16]);
        assert(r@[17]@ == asset_extensions()[17]);
        assert(r@[18]@ == asset_extensions()[18]);
        assert(r@[19]@ == asset_extensions()[19]);
        assert(r@[20]@ == asset_extensions()[20]);
        assert(r@[21]@ == asset_extensions()[21]);
        assert(r@[22]@ == asset_extensions()[22]);
    }
    r
}

/// Whether a specifier names a non-TypeScript asset (styles, images, fonts,
/// media) by its extension, compared without regard to ASCII case.
pub open spec fn is_non_ts_asset_spec(specifier: Seq<char>) -> bool {
    match file_name(specifier) {
        Some(n) => match name_extension(n) {
            Some(e) => exists|i: int| 0 <= i < asset_extensions().len() && eq_ignore_ascii_case(e, #[trigger] asset_extensions()[i]),
            None => false,
        },
        None => false,
    }
}

/// Checks whether a specifier refers to a non-TS asset that cannot be resolved
/// to a declaration file.
pub fn is_non_ts_asset(specifier: &str) -> (r: bool)
    ensures
        r == is_non_ts_asset_spec(specifier@),
{
    let name = match path_file_name(specifier) {
        Some(n) => str_chars(n.as_str()),
        None => return false,
    };
    let ext = match name_extension_of(&name) {
        Some(e) => e,
        None => return false,
    };
    assert(file_name(specifier@) == Some(name@));
    assert(name_extension(name@) == Some(ext@));
    let list = asset_extension_list();
    let mut i: usize = 0;
    while i < list.len()
        invariant
            0 <= i <= list@.len(),
            list@.len() == asset_extensions().len(),
            forall|k: int| 0 <= k < list@.len() ==> (#[trigger] list@[k])@ == asset_extensions()[k],
            forall|k: int| 0 <= k < i ==> !eq_ignore_ascii_case(ext@, #[trigger] asset_extensions()[k]),
            file_name(specifier@) == Some(name@),
            name_extension(name@) == Some(ext@),
        decreases list@.len() - i,
    {
        if chars_eq_ignore_ascii_case(&ext, &list[i]) {
            assert(eq_ignore_ascii_case(ext@, asset_extensions()[i as int]));
            return true;
        }
        i += 1;
    }
    false
}

/// The characters of `_d_exports`.
pub open spec fn d_exports_suffix() -> Seq<char> {
    seq!['_', 'd', '_', 'e', 'x', 'p', 'o', 'r', 't', 's']
}

/// The characters of `_exports`.
pub open spec fn exports_suffix() -> Seq<char> {
    seq!['_', 'e', 'x', 'p', 'o', 'r', 't', 's']
}

/// A file name without a trailing `.d.ts`, or else without a trailing `.ts`.
pub open spec fn strip_ts_suffix(name: Seq<char>) -> Seq<char> {
    if has_suffix(name, seq!['.', 'd', '.', 't', 's']) {
        name.take(name.len() - 5)
    } else if has_suffix(name, seq!['.', 't', 's']) {
        name.take(name.len() - 3)
    } else {
        name
    }
}

/// `s` with `-` and `.` replaced by `_`.
pub open spec fn underscore_separators(s: Seq<char>) -> Seq<char> {
    replace_char(replace_char(s, '-', seq!['_']), '.', seq!['_'])
}

/// The namespace name of a module path: `foo-bar.d.ts` gives `foo_bar_d_exports`.
pub open spec fn namespace_name_of(path: Seq<char>) -> Seq<char> {
    underscore_separators(strip_ts_suffix(file_name(path)->0)) + d_exports_suffix()
}

/// The first `n` characters as a `String`.
fn prefix_string(v: &Vec<char>, n: usize) -> (r: String)
    requires
        n <= v@.len(),
    ensures
        r@ == v@.take(n as int),
{
    let mut out: Vec<char> = Vec::new();
    let mut i: usize = 0;
    while i < n
        invariant
            0 <= i <= n,
            n <= v@.len(),
            out@ == v@.take(i as int),
        decreases n - i,
    {
        out.push(v[i]);
        assert(v@.take(i + 1) == v@.take(i as int).push(v@[i as int]));
        i += 1;
    }
    string_from_chars(&out)
}

/// `s` with `-` and `.` replaced by `_`.
pub fn underscore_separators_of(s: &str) -> (r: String)
    ensures
        r@ == underscore_separators(s@),
{
    let us = "_";
    proof {
        reveal_strlit("_");
        assert(us@ =~= seq!['_']);
    }
    let a = cow_replace_char(s, '-', us);
    cow_replace_char(a.as_str(), '.', us)
}

/// Derives a namespace name from a module's file path: `foo.d.ts` gives
/// `foo_d_exports`; hyphens and dots in the name become underscores.
pub fn derive_namespace_name(path: &str) -> (r: String)
    requires
        file_name(path@) is Some,
    ensures
        r@ == namespace_name_of(path@),
{
    let name = match path_file_name(path) {
        Some(n) => str_chars(n.as_str()),
        None => Vec::new(),
    };
    let dts = literal_chars(".d.ts");
    let ts = literal_chars(".ts");
    proof {
        reveal_strlit(".d.ts");
        reveal_strlit(".ts");
        assert(dts@ =~= seq!['.', 'd', '.', 't', 's']);
        assert(ts@ =~= seq!['.', 't', 's']);
    }
    let stem = if chars_ends_with(&name, &dts) {
        prefix_string(&name, name.len() - 5)
    } else if chars_ends_with(&name, &ts) {
        prefix_string(&name, name.len() - 3)
    } else {
        string_from_chars(&name)
    };
    let mut out = underscore_separators_of(stem.as_str());
    let suffix = "_d_exports";
    proof {
        reveal_strlit("_d_exports");
        assert(suffix@ =~= d_exports_suffix());
    }
    push_str(&mut out, suffix);
    out
}

/// The stem a module contributes to reserved helper names: its file stem, or
/// `mod` when the path has no file name.
pub open spec fn helper_stem(path: Seq<char>) -> Seq<char> {
    match file_name(path) {
        Some(n) => name_stem(n),
        None => seq!['m', 'o', 'd'],
    }
}

/// The two helper names a module reserves: `{stem}_exports` and
/// `{stem}_d_exports`, with `-` and `.` of the stem made `_`.
pub fn synthetic_helper_names(path: &str) -> (r: (String, String))
    ensures
        r.0@ == underscore_separators(helper_stem(path@)) + exports_suffix(),
        r.1@ == underscore_separators(helper_stem(path@)) + d_exports_suffix(),
{
    let stem: String = match path_file_name(path) {
        Some(n) => {
            let v = str_chars(n.as_str());
            let st = name_stem_of(&v);
            string_from_chars(&st)
        },
        None => {
            let m = "mod";
            proof {
                reveal_strlit("mod");
                assert(m@ =~= seq!['m', 'o', 'd']);
            }
            crate::text::string_clone(m)
        },
    };
    let safe = underscore_separators_of(stem.as_str());
    let mut a = crate::text::string_clone(safe.as_str());
    let mut b = crate::text::string_clone(safe.as_str());
    let s1 = "_exports";
    let s2 = "_d_exports";
    proof {
        reveal_strlit("_exports");
        reveal_strlit("_d_exports");
        assert(s1@ =~= exports_suffix());
        assert(s2@ =~= d_exports_suffix());
    }
    push_str(&mut a, s1);
    push_str(&mut b, s2);
    (a, b)
}

/// The components of `path` equal those of `other` (`Path` equality).
pub fn same_path(path: &str, other: &str) -> (r: bool)
    ensures
        r == (components(path@) == components(other@)),
{
    let a = path_components(path);
    let b = path_components(other);
    assert(comps_view(a@) == components(path@));
    assert(comps_view(b@) == components(other@));
    if a.len() != b.len() {
        assert(comps_view(a@).len() != comps_view(b@).len());
        return false;
    }
    let mut i: usize = 0;
    while i < a.len()
        invariant
            0 <= i <= a@.len(),
            a@.len() == b@.len(),
            comps_view(a@) == components(path@),
            comps_view(b@) == components(other@),
            forall|j: int| 0 <= j < i ==> (#[trigger] a@[j]).view() == b@[j].view(),
        decreases a@.len() - i,
    {
        if !component_eq(&a[i], &b[i]) {
            assert(comps_view(a@)[i as int] != comps_view(b@)[i as int]);
            assert(components(path@)[i as int] != components(other@)[i as int]);
            return false;
        }
        i += 1;
    }
    assert(comps_view(a@) =~= comps_view(b@));
    true
}

/// Whether a resolved target is bundled: an explicitly internal path is; else a
/// path under `node_modules` is not; else a TypeScript-family file is.
pub open spec fn should_bundle_spec(path: Seq<char>, explicit: Seq<Seq<char>>) -> bool {
    if exists|i: int| 0 <= i < explicit.len() && components(#[trigger] explicit[i]) == components(path) {
        true
    } else if exists|i: int| 0 <= i < components(path).len() && comp_text(#[trigger] components(path)[i])
        == seq!['n', 'o', 'd', 'e', '_', 'm', 'o', 'd', 'u', 'l', 'e', 's'] {
        false
    } else {
        is_ts_file_spec(path)
    }
}

/// Decides whether a resolved file joins the bundle.
pub fn should_bundle_resolved_target(resolved_path: &str, explicit_internal_paths: &Vec<String>) -> (r: bool)
    ensures
        r == should_bundle_spec(resolved_path@, explicit_internal_paths@.map_values(|s: String| s@)),
{
    let ghost ex = explicit_internal_paths@.map_values(|s: String| s@);
    let mut i: usize = 0;
    while i < explicit_internal_paths.len()
        invariant
            0 <= i <= explicit_internal_paths@.len(),
            ex == explicit_internal_paths@.map_values(|s: String| s@),
            forall|j: int| 0 <= j < i ==> components(#[trigger] ex[j]) != components(resolved_path@),
        decreases explicit_internal_paths@.len() - i,
    {
        if same_path(explicit_internal_paths[i].as_str(), resolved_path) {
            assert(components(ex[i as int]) == components(resolved_path@));
            return true;
        }
        i += 1;
    }
    let nm = "node_modules";
    proof {
        reveal_strlit("node_modules");
        assert(nm@ =~= seq!['n', 'o', 'd', 'e', '_', 'm', 'o', 'd', 'u', 'l', 'e', 's']);
    }
    if path_has_component(resolved_path, nm) {
        return false;
    }
    is_ts_file(resolved_path)
}

/// The candidate locations of `tsconfig.json` when walking up from
/// `start_dir`: the directory itself, then each ancestor.
pub open spec fn tsconfig_dirs(comps: Seq<Comp>) -> Seq<Seq<Comp>>
    decreases comps.len(),
{
    if comps.len() == 0 || (comps.len() == 1 && comps[0] == Comp::Root) {
        seq![comps]
    } else {
        seq![comps] + tsconfig_dirs(comps.drop_last())
    }
}

/// The characters of `tsconfig.json`.
pub open spec fn tsconfig_file_name() -> Seq<char> {
    seq!['t', 's', 'c', 'o', 'n', 'f', 'i', 'g', '.', 'j', 's', 'o', 'n']
}

/// The paths to test, in order, when looking for `tsconfig.json` from `start_dir` upwards.
pub open spec fn tsconfig_candidates_spec(start_dir: Seq<char>) -> Seq<Seq<char>> {
    tsconfig_dirs(components(start_dir)).map_values(|d: Seq<Comp>| render(d.push(Comp::Normal(tsconfig_file_name()))))
}

/// The paths at which `tsconfig.json` is looked for, walking up from
/// `start_dir`; the first of them that is a file is the one used.
pub fn tsconfig_candidates(start_dir: &str) -> (r: Vec<String>)
    ensures
        r@.map_values(|s: String| s@) == tsconfig_candidates_spec(start_dir@),
{
    let mut dir = path_components(start_dir);
    let name = "tsconfig.json";
    proof {
        reveal_strlit("tsconfig.json");
        assert(name@ =~= tsconfig_file_name());
    }
    let mut out: Vec<String> = Vec::new();
    let ghost all = tsconfig_dirs(components(start_dir@));
    loop
        invariant
            tsconfig_dirs(comps_view(dir@)).map_values(|d: Seq<Comp>| render(d.push(Comp::Normal(tsconfig_file_name()))))
                == tsconfig_dirs(components(start_dir@)).map_values(|d: Seq<Comp>| render(d.push(Comp::Normal(tsconfig_file_name())))).skip(out@.len() as int),
            out@.map_values(|s: String| s@) == tsconfig_candidates_spec(start_dir@).take(out@.len() as int),
            out@.len() <= tsconfig_candidates_spec(start_dir@).len(),
            name@ == tsconfig_file_name(),
        decreases dir@.len(),
    {
        let ghost dv = comps_view(dir@);
        let ghost rest = tsconfig_dirs(dv).map_values(|d: Seq<Comp>| render(d.push(Comp::Normal(tsconfig_file_name()))));
        let mut cand: Vec<PathComponent> = Vec::new();
        let mut k: usize = 0;
        while k < dir.len()
            invariant
                0 <= k <= dir@.len(),
                comps_view(cand@) == comps_view(dir@).take(k as int),
            decreases dir@.len() - k,
        {
            let ghost before = comps_view(cand@);
            cand.push(clone_component(&dir[k]));
            assert(comps_view(cand@) == before.push(dir@[k as int].view()));
            assert(comps_view(dir@).take(k + 1) == comps_view(dir@).take(k as int).push(dir@[k as int].view()));
            k += 1;
        }
        assert(comps_view(dir@).take(k as int) == comps_view(dir@));
        let ghost before_c = comps_view(cand@);
        cand.push(PathComponent::Normal(crate::text::string_clone(name)));
        assert(comps_view(cand@) == before_c.push(Comp::Normal(tsconfig_file_name())));
        let rendered = render_components(&cand);
        assert(rest[0] == rendered@);
        let ghost before_out = out@.map_values(|s: String| s@);
        out.push(rendered);
        assert(out@.map_values(|s: String| s@) == before_out.push(rendered@));
        let ghost all_c = tsconfig_candidates_spec(start_dir@);
        assert(rest == all_c.skip(before_out.len() as int));
        assert(tsconfig_dirs(dv).len() >= 1);
        assert(rest.len() >= 1);
        assert(before_out.len() < all_c.len());
        assert(all_c[before_out.len() as int] == rest[0]);
        assert(all_c.take(out@.len() as int) == all_c.take(before_out.len() as int).push(all_c[before_out.len() as int]));
        let at_top = dir.len() == 0 || (dir.len() == 1 && match &dir[0] {
            PathComponent::RootDir => true,
            _ => false,
        });
        if at_top {
            assert(dv.len() == 0 || (dv.len() == 1 && dv[0] == Comp::Root));
            assert(rest.len() == 1);
            assert(all_c.take(out@.len() as int) =~= all_c);
            return out;
        }
        assert(!(dv.len() == 0 || (dv.len() == 1 && dv[0] == Comp::Root)));
        dir.pop();
        assert(comps_view(dir@) == dv.drop_last());
        assert(tsconfig_dirs(dv) == seq![dv] + tsconfig_dirs(dv.drop_last()));
        assert(tsconfig_dirs(comps_view(dir@)).map_values(|d: Seq<Comp>| render(d.push(Comp::Normal(tsconfig_file_name())))) =~= rest.skip(1));
        assert(all_c.skip(before_out.len() as int).skip(1) =~= all_c.skip(out@.len() as int));
    }
}

} // verus!
