//! Paths, as text with `/` between the parts: what they consist of, when two are the same, which
//! comes first, and how one is joined onto another or taken off again.

use vstd::prelude::*;
use vstd::string::{StrSliceExecFns, StringExecFns};

use crate::order::{lemma_lex_is_strict_total_order, lex_before, lex_before_at, strict_total_order};
use crate::text::{chars_come_before, chars_of, lemma_text_order, text_before};

verus! {

/// What a path consists of.
pub enum Component {
    /// The root of the file system.
    RootDir,
    /// The current directory.
    CurDir,
    /// The parent directory.
    ParentDir,
    /// A file or directory by its name.
    Normal(Seq<char>),
}

/// A component in executable form.
pub enum Part {
    RootDir,
    CurDir,
    ParentDir,
    Normal(Vec<char>),
}

impl View for Part {
    type V = Component;

    open spec fn view(&self) -> Component {
        match self {
            Part::RootDir => Component::RootDir,
            Part::CurDir => Component::CurDir,
            Part::ParentDir => Component::ParentDir,
            Part::Normal(name) => Component::Normal(name@),
        }
    }
}

/// What stands between the slashes of a path, empty pieces included.
pub open spec fn segments(path: Seq<char>) -> Seq<Seq<char>>
    decreases path.len(),
{
    if path.len() == 0 {
        seq![Seq::<char>::empty()]
    } else {
        let before = segments(path.drop_last());
        if path.last() == '/' {
            before.push(Seq::<char>::empty())
        } else {
            before.drop_last().push(before.last().push(path.last()))
        }
    }
}

/// What a segment means. Empty segments mean nothing, and a single dot only means something at
/// the very start.
pub open spec fn segment_component(segment: Seq<char>, first: bool) -> Option<Component> {
    if segment.len() == 0 {
        None
    } else if segment == seq!['.'] {
        if first {
            Some(Component::CurDir)
        } else {
            None
        }
    } else if segment == seq!['.', '.'] {
        Some(Component::ParentDir)
    } else {
        Some(Component::Normal(segment))
    }
}

/// What a list of segments means, each one in turn.
pub open spec fn segment_components(segments: Seq<Seq<char>>) -> Seq<Component>
    decreases segments.len(),
{
    if segments.len() == 0 {
        Seq::empty()
    } else {
        let before = segment_components(segments.drop_last());
        match segment_component(segments.last(), segments.len() == 1) {
            Some(component) => before.push(component),
            None => before,
        }
    }
}

/// The path starts at the root of the file system.
pub open spec fn is_absolute(path: Seq<char>) -> bool {
    path.len() > 0 && path[0] == '/'
}

/// The root, where the path starts there.
pub open spec fn root_component(path: Seq<char>) -> Seq<Component> {
    if is_absolute(path) {
        seq![Component::RootDir]
    } else {
        Seq::empty()
    }
}

/// The components of a path. Repeated and trailing slashes make no difference to them.
pub open spec fn components(path: Seq<char>) -> Seq<Component> {
    root_component(path) + segment_components(segments(path))
}

/// The two texts name the same path.
pub open spec fn same_path(a: Seq<char>, b: Seq<char>) -> bool {
    components(a) == components(b)
}

/// The kinds of components in order.
pub open spec fn component_rank(component: Component) -> int {
    match component {
        Component::RootDir => 0,
        Component::CurDir => 1,
        Component::ParentDir => 2,
        Component::Normal(_) => 3,
    }
}

/// Components are ordered by kind, names by their text.
pub open spec fn component_order() -> spec_fn(Component, Component) -> bool {
    |a: Component, b: Component|
        {
            ||| component_rank(a) < component_rank(b)
            ||| a is Normal && b is Normal && text_before(a->Normal_0, b->Normal_0)
        }
}

/// Paths are ordered component by component.
pub open spec fn path_before(a: Seq<char>, b: Seq<char>) -> bool {
    lex_before(components(a), components(b), component_order())
}

/// A path taken to start from `base`: an absolute one replaces it, any other is appended.
pub open spec fn joined(base: Seq<char>, path: Seq<char>) -> Seq<char> {
    if is_absolute(path) {
        path
    } else {
        as_directory(base) + path
    }
}

/// `base` with a slash at the end, ready to take more; nothing stays nothing.
pub open spec fn as_directory(base: Seq<char>) -> Seq<char> {
    if base.len() == 0 || base.last() == '/' {
        base
    } else {
        base.push('/')
    }
}

/// The length of segments with slashes between them; one less than nothing where there are none.
pub open spec fn segments_length(segments: Seq<Seq<char>>) -> int
    decreases segments.len(),
{
    if segments.len() == 0 {
        -1
    } else {
        segments_length(segments.drop_last()) + 1 + segments.last().len()
    }
}

/// Where the segments that mean something start and end.
pub open spec fn segment_spans(segments: Seq<Seq<char>>) -> Seq<(int, int)>
    decreases segments.len(),
{
    if segments.len() == 0 {
        Seq::empty()
    } else {
        let before = segment_spans(segments.drop_last());
        let end = segments_length(segments);
        match segment_component(segments.last(), segments.len() == 1) {
            Some(_) => before.push((end - segments.last().len(), end)),
            None => before,
        }
    }
}

/// Where the components of a path start and end in its text.
pub open spec fn spans(path: Seq<char>) -> Seq<(int, int)> {
    (if is_absolute(path) {
        seq![(0int, 1int)]
    } else {
        Seq::empty()
    }) + segment_spans(segments(path))
}

/// What remains of a path without its first `count` components: the text from the next component
/// to the last, without the slashes around it.
pub open spec fn path_after(path: Seq<char>, count: int) -> Seq<char> {
    if count < spans(path).len() {
        path.subrange(spans(path)[count].0, spans(path).last().1)
    } else {
        Seq::empty()
    }
}

/// What remains of a path below `base`, if its components start with those of `base`.
pub open spec fn relative_to(path: Seq<char>, base: Seq<char>) -> Option<Seq<char>> {
    if components(base).is_prefix_of(components(path)) {
        Some(path_after(path, components(base).len() as int))
    } else {
        None
    }
}

/// Segments with slashes between them.
spec fn joined_segments(segments: Seq<Seq<char>>) -> Seq<char>
    decreases segments.len(),
{
    if segments.len() == 0 {
        Seq::empty()
    } else if segments.len() == 1 {
        segments[0]
    } else {
        joined_segments(segments.drop_last()).push('/') + segments.last()
    }
}

proof fn lemma_segments(path: Seq<char>)
    ensures
        segments(path).len() >= 1,
        segments(path).last().len() <= path.len(),
        segments_length(segments(path)) == path.len(),
        joined_segments(segments(path)) == path,
        forall|i: int| 0 <= i < segments(path).len() ==> !(#[trigger] segments(path)[i]).contains('/'),
    decreases path.len(),
{
    let after = segments(path);
    reveal_with_fuel(segments_length, 2);
    if path.len() == 0 {
        assert(after =~= seq![Seq::<char>::empty()]);
        assert(after.drop_last() =~= Seq::empty());
        assert(path =~= Seq::empty());
    } else {
        let rest = path.drop_last();
        let before = segments(rest);
        lemma_segments(rest);
        assert(path =~= rest.push(path.last()));
        if path.last() == '/' {
            assert(after.drop_last() =~= before);
            assert(rest.push('/') + Seq::<char>::empty() =~= path);
        } else {
            assert(after.drop_last() =~= before.drop_last());
            assert forall|i: int| 0 <= i < after.len() implies !(#[trigger] after[i]).contains('/') by {
                if i < before.len() - 1 {
                    assert(after[i] == before[i]);
                } else {
                    let last = before[before.len() - 1];
                    assert(!last.contains('/'));
                    if after[i].contains('/') {
                        let k = choose|k: int| 0 <= k < after[i].len() && after[i][k] == '/';
                        assert(last[k] == '/');
                    }
                }
            }
            if before.len() == 1 {
                assert(joined_segments(after) =~= path);
            } else {
                let directory = joined_segments(before.drop_last()).push('/');
                assert(directory + before.last().push(path.last()) =~= (directory
                    + before.last()).push(path.last()));
            }
        }
    }
}

/// The component that a segment means.
fn part_of(segment: Vec<char>, first: bool) -> (part: Option<Part>)
    ensures
        match segment_component(segment@, first) {
            Some(component) => part is Some && part->0@ == component,
            None => part is None,
        },
{
    if segment.len() == 0 {
        return None;
    }
    if segment.len() == 1 && segment[0] == '.' {
        assert(segment@ =~= seq!['.']);
        return if first {
            Some(Part::CurDir)
        } else {
            None
        };
    }
    if segment.len() == 2 && segment[0] == '.' && segment[1] == '.' {
        assert(segment@ =~= seq!['.', '.']);
        return Some(Part::ParentDir);
    }
    assert(segment@ != seq!['.']) by {
        if segment@ == seq!['.'] {
            assert(segment@[0] == '.');
        }
    }
    assert(segment@ != seq!['.', '.']) by {
        if segment@ == seq!['.', '.'] {
            assert(segment@[0] == '.' && segment@[1] == '.');
        }
    }
    Some(Part::Normal(segment))
}

/// The views of a list of parts.
pub open spec fn part_views(parts: Seq<Part>) -> Seq<Component> {
    parts.map_values(|part: Part| part@)
}

/// The views of a list of spans.
spec fn span_views(list: Seq<(usize, usize)>) -> Seq<(int, int)> {
    list.map_values(|span: (usize, usize)| (span.0 as int, span.1 as int))
}

/// The components of a path, and where they start and end in its text.
fn placed_parts_of(path: &str) -> (placed: (Vec<Part>, Vec<(usize, usize)>))
    ensures
        part_views(placed.0@) == components(path@),
        span_views(placed.1@) == spans(path@),
{
    let chars = chars_of(path);
    let mut parts: Vec<Part> = Vec::new();
    let mut places: Vec<(usize, usize)> = Vec::new();
    if chars.len() > 0 && chars[0] == '/' {
        parts.push(Part::RootDir);
        places.push((0, 1));
    }
    let ghost root = root_component(path@);
    let ghost root_place = span_views(places@);
    assert(part_views(parts@) =~= root);
    let mut segment: Vec<char> = Vec::new();
    let mut first: bool = true;
    proof {
        assert(chars@.take(0) =~= Seq::<char>::empty());
        assert(segments(chars@.take(0)).drop_last() =~= Seq::<Seq<char>>::empty());
        assert(segment@ =~= segments(chars@.take(0)).last());
        assert(root + Seq::<Component>::empty() =~= root);
        assert(root_place + Seq::<(int, int)>::empty() =~= root_place);
    }
    for i in 0..chars.len()
        invariant
            chars@ == path@,
            segments(chars@.take(i as int)).len() >= 1,
            segment@ == segments(chars@.take(i as int)).last(),
            first == (segments(chars@.take(i as int)).len() == 1),
            part_views(parts@) == root + segment_components(
                segments(chars@.take(i as int)).drop_last(),
            ),
            span_views(places@) == root_place + segment_spans(
                segments(chars@.take(i as int)).drop_last(),
            ),
    {
        let ghost seen = chars@.take(i as int);
        let ghost more = chars@.take(i as int + 1);
        assert(more.drop_last() =~= seen);
        assert(more.last() == chars@[i as int]);
        if chars[i] == '/' {
            proof {
                lemma_segments(seen);
            }
            place_segment(segment, first, i, &mut parts, &mut places);
            segment = Vec::new();
            first = false;
            proof {
                assert(segment@ =~= Seq::<char>::empty());
                assert(segments(more).drop_last() =~= segments(seen));
                assert(part_views(parts@) =~= root + segment_components(segments(seen)));
                assert(span_views(places@) =~= root_place + segment_spans(segments(seen)));
            }
        } else {
            segment.push(chars[i]);
            assert(segments(more).drop_last() =~= segments(seen).drop_last());
        }
    }
    proof {
        assert(chars@.take(chars@.len() as int) =~= chars@);
        lemma_segments(path@);
    }
    place_segment(segment, first, chars.len(), &mut parts, &mut places);
    assert(part_views(parts@) =~= components(path@));
    assert(span_views(places@) =~= spans(path@));
    (parts, places)
}

/// Adds the component that the segment before `end` means to the others.
fn place_segment(
    segment: Vec<char>,
    first: bool,
    end: usize,
    parts: &mut Vec<Part>,
    places: &mut Vec<(usize, usize)>,
)
    requires
        segment@.len() <= end,
    ensures
        match segment_component(segment@, first) {
            Some(component) => {
                &&& part_views(final(parts)@) == part_views(old(parts)@).push(component)
                &&& span_views(final(places)@) == span_views(old(places)@).push(
                    (end - segment@.len(), end as int),
                )
            },
            None => final(parts)@ == old(parts)@ && final(places)@ == old(places)@,
        },
{
    let start: usize = end - segment.len();
    match part_of(segment, first) {
        Some(part) => {
            parts.push(part);
            places.push((start, end));
            assert(part_views(parts@) =~= part_views(old(parts)@).push(part@));
            assert(span_views(places@) =~= span_views(old(places)@).push((start as int, end as int)));
        },
        None => {},
    }
}

/// The components of a path.
pub fn parts_of(path: &str) -> (parts: Vec<Part>)
    ensures
        part_views(parts@) == components(path@),
{
    placed_parts_of(path).0
}

/// Whether two components are the same.
fn same_part(a: &Part, b: &Part) -> (same: bool)
    ensures
        same == (a@ == b@),
{
    match (a, b) {
        (Part::RootDir, Part::RootDir) => true,
        (Part::CurDir, Part::CurDir) => true,
        (Part::ParentDir, Part::ParentDir) => true,
        (Part::Normal(x), Part::Normal(y)) => same_chars(x, y),
        _ => false,
    }
}

fn same_chars(a: &Vec<char>, b: &Vec<char>) -> (same: bool)
    ensures
        same == (a@ == b@),
{
    if a.len() != b.len() {
        return false;
    }
    for i in 0..a.len()
        invariant
            a@.len() == b@.len(),
            forall|j: int| 0 <= j < i ==> a@[j] == b@[j],
    {
        if a[i] != b[i] {
            return false;
        }
    }
    assert(a@ =~= b@);
    true
}

fn rank_of(part: &Part) -> (rank: u8)
    ensures
        rank == component_rank(part@),
{
    match part {
        Part::RootDir => 0,
        Part::CurDir => 1,
        Part::ParentDir => 2,
        Part::Normal(_) => 3,
    }
}

/// Whether component `a` comes before component `b`.
fn part_comes_before(a: &Part, b: &Part) -> (before: bool)
    ensures
        before == component_order()(a@, b@),
{
    if rank_of(a) < rank_of(b) {
        return true;
    }
    match (a, b) {
        (Part::Normal(x), Part::Normal(y)) => chars_come_before(x, y),
        _ => false,
    }
}

/// Whether two texts name the same path.
pub fn is_same_path(a: &str, b: &str) -> (same: bool)
    ensures
        same == same_path(a@, b@),
{
    let x = parts_of(a);
    let y = parts_of(b);
    let ghost p = part_views(x@);
    let ghost q = part_views(y@);
    if x.len() != y.len() {
        assert(p.len() != q.len());
        return false;
    }
    for i in 0..x.len()
        invariant
            p == part_views(x@),
            q == part_views(y@),
            x@.len() == y@.len(),
            p == components(a@),
            q == components(b@),
            forall|j: int| 0 <= j < i ==> p[j] == q[j],
    {
        if !same_part(&x[i], &y[i]) {
            assert(p[i as int] != q[i as int]);
            return false;
        }
    }
    assert(p =~= q);
    true
}

/// Whether path `a` comes before path `b`.
pub fn path_comes_before(a: &str, b: &str) -> (before: bool)
    ensures
        before == path_before(a@, b@),
{
    let x = parts_of(a);
    let y = parts_of(b);
    let ghost p = part_views(x@);
    let ghost q = part_views(y@);
    let mut i: usize = 0;
    while i < x.len() && i < y.len() && same_part(&x[i], &y[i])
        invariant
            p == part_views(x@),
            q == part_views(y@),
            i <= x@.len(),
            i <= y@.len(),
            forall|j: int| 0 <= j < i ==> p[j] == q[j],
        decreases x@.len() - i,
    {
        i = i + 1;
    }
    let before: bool = i < y.len() && (i == x.len() || part_comes_before(&x[i], &y[i]));
    proof {
        lemma_component_order();
        if before {
            assert(lex_before_at(p, q, component_order(), i as int));
        } else {
            assert forall|k: int| !#[trigger] lex_before_at(p, q, component_order(), k) by {
                if lex_before_at(p, q, component_order(), k) {
                    if k < i {
                        assert(p[k] == q[k]);
                        assert(!component_order()(p[k], p[k]));
                    } else if k > i {
                        assert(p[i as int] == q[i as int]);
                    }
                }
            }
        }
    }
    before
}

/// Joins `path` onto `base`.
pub fn join_path(base: &str, path: &str) -> (result: String)
    ensures
        result@ == joined(base@, path@),
{
    let path_chars = chars_of(path);
    if path_chars.len() > 0 && path_chars[0] == '/' {
        return path.to_owned();
    }
    let base_chars = chars_of(base);
    if base_chars.len() == 0 || base_chars[base_chars.len() - 1] == '/' {
        return base.to_owned().concat(path);
    }
    proof {
        reveal_strlit("/");
        assert("/"@ =~= seq!['/']);
        assert(base@ + seq!['/'] =~= base@.push('/'));
    }
    base.to_owned().concat("/").concat(path)
}

/// What remains of `path` below `base`.
pub fn strip_base(path: &str, base: &str) -> (rest: Option<String>)
    ensures
        match relative_to(path@, base@) {
            Some(text) => rest is Some && rest->0@ == text,
            None => rest is None,
        },
{
    let (parts, places) = placed_parts_of(path);
    let prefix = parts_of(base);
    let ghost p = part_views(parts@);
    let ghost q = part_views(prefix@);
    if prefix.len() > parts.len() {
        assert(p.len() < q.len());
        return None;
    }
    for i in 0..prefix.len()
        invariant
            p == part_views(parts@),
            q == part_views(prefix@),
            p == components(path@),
            q == components(base@),
            prefix@.len() <= parts@.len(),
            forall|j: int| 0 <= j < i ==> p[j] == q[j],
    {
        if !same_part(&parts[i], &prefix[i]) {
            assert(p[i as int] != q[i as int]);
            return None;
        }
    }
    assert(q.is_prefix_of(p)) by {
        assert(q =~= p.subrange(0, q.len() as int));
    }
    if prefix.len() == places.len() {
        return Some(String::new());
    }
    let ghost kept = spans(path@);
    proof {
        lemma_spans(path@);
        assert(kept.len() == p.len());
        assert(kept[prefix@.len() as int] == (
            places@[prefix@.len() as int].0 as int,
            places@[prefix@.len() as int].1 as int,
        ));
        assert(kept.last().1 == places@[places@.len() - 1].1);
    }
    let start: usize = places[prefix.len()].0;
    let end: usize = places[places.len() - 1].1;
    Some(path.substring_char(start, end).to_owned())
}

proof fn lemma_component_order()
    ensures
        strict_total_order(component_order()),
{
    let lt = component_order();
    lemma_text_order();
    let by_text = |a: Seq<char>, b: Seq<char>| text_before(a, b);
    assert forall|x: Component| !#[trigger] lt(x, x) by {
        if x is Normal {
            assert(!by_text(x->Normal_0, x->Normal_0));
        }
    }
    assert forall|x: Component, y: Component, z: Component| #[trigger]
        lt(x, y) && #[trigger] lt(y, z) implies lt(x, z) by {
        if x is Normal && y is Normal && z is Normal {
            assert(by_text(x->Normal_0, y->Normal_0) && by_text(y->Normal_0, z->Normal_0));
            assert(by_text(x->Normal_0, z->Normal_0));
        }
    }
    assert forall|x: Component, y: Component| x == y || #[trigger] lt(x, y) || lt(y, x) by {
        if x is Normal && y is Normal {
            let a = x->Normal_0;
            let b = y->Normal_0;
            assert(a == b || by_text(a, b) || by_text(b, a));
        }
    }
}

/// The order of paths is a strict total order on what the paths consist of: of two that are not
/// the same path exactly one comes first, and coming first carries over.
pub proof fn law_path_order(a: Seq<char>, b: Seq<char>, c: Seq<char>)
    ensures
        !path_before(a, a),
        path_before(a, b) && path_before(b, c) ==> path_before(a, c),
        same_path(a, b) || path_before(a, b) || path_before(b, a),
        same_path(a, b) ==> !path_before(a, b),
{
    lemma_component_order();
    lemma_lex_is_strict_total_order(component_order());
    let lex = |x: Seq<Component>, y: Seq<Component>| lex_before(x, y, component_order());
    let (x, y, z) = (components(a), components(b), components(c));
    assert(!lex(x, x));
    if path_before(a, b) && path_before(b, c) {
        assert(lex(x, y) && lex(y, z));
        assert(lex(x, z));
    }
    assert(x == y || lex(x, y) || lex(y, x));
}

proof fn lemma_components_grow(segments: Seq<Seq<char>>, kept: int)
    requires
        0 <= kept <= segments.len(),
    ensures
        segment_components(segments.take(kept)).is_prefix_of(segment_components(segments)),
    decreases segments.len(),
{
    let low = segment_components(segments.take(kept));
    if kept == segments.len() {
        assert(segments.take(kept) =~= segments);
        assert(low =~= low.subrange(0, low.len() as int));
    } else {
        lemma_components_grow(segments.drop_last(), kept);
        assert(segments.drop_last().take(kept) =~= segments.take(kept));
        let before = segment_components(segments.drop_last());
        let after = segment_components(segments);
        assert(low =~= before.subrange(0, low.len() as int));
        assert(low =~= after.subrange(0, low.len() as int));
    }
}

/// The segment that a component comes from.
proof fn lemma_component_at(segments: Seq<Seq<char>>, n: int) -> (i: int)
    requires
        0 <= n < segment_components(segments).len(),
    ensures
        0 <= i < segments.len(),
        segment_component(segments[i], i == 0) == Some(segment_components(segments)[n]),
        segment_components(segments.take(i)) == segment_components(segments).take(n),
        segment_spans(segments).len() == segment_components(segments).len(),
        segment_spans(segments)[n] == (
            segments_length(segments.take(i)) + 1,
            segments_length(segments.take(i)) + 1 + segments[i].len(),
        ),
    decreases segments.len(),
{
    let rest = segments.drop_last();
    let before = segment_components(rest);
    if before.len() > 0 {
        let _ = lemma_component_at(rest, 0);
    } else {
        lemma_no_components(rest);
    }
    if n < before.len() {
        let i = lemma_component_at(rest, n);
        assert(segments.take(i) =~= rest.take(i));
        assert(before.take(n) =~= segment_components(segments).take(n));
        i
    } else {
        let i = segments.len() - 1;
        assert(segments.take(i) =~= rest);
        assert(before =~= segment_components(segments).take(n));
        i
    }
}

proof fn lemma_no_components(segments: Seq<Seq<char>>)
    requires
        segment_components(segments).len() == 0,
    ensures
        segment_spans(segments).len() == 0,
    decreases segments.len(),
{
    if segments.len() > 0 {
        lemma_no_components(segments.drop_last());
    }
}

proof fn lemma_lengths_grow(segments: Seq<Seq<char>>, kept: int)
    requires
        0 <= kept <= segments.len(),
    ensures
        -1 <= segments_length(segments.take(kept)) <= segments_length(segments),
    decreases segments.len(),
{
    if kept == segments.len() {
        assert(segments.take(kept) =~= segments);
        if kept > 0 {
            lemma_lengths_grow(segments.drop_last(), kept - 1);
        }
    } else {
        lemma_lengths_grow(segments.drop_last(), kept);
        assert(segments.drop_last().take(kept) =~= segments.take(kept));
    }
}

/// Components stand in the text one after the other.
proof fn lemma_spans(path: Seq<char>)
    ensures
        spans(path).len() == components(path).len(),
        forall|n: int|
            0 <= n < spans(path).len() ==> 0 <= (#[trigger] spans(path)[n]).0 <= spans(path).last().1
                <= path.len(),
{
    let list = segments(path);
    let found = segment_components(list);
    let count = found.len() as int;
    let root = root_component(path).len() as int;
    lemma_segments(path);
    if count == 0 {
        lemma_no_components(list);
    } else {
        let b = lemma_component_at(list, count - 1);
        assert(list.take(b + 1).drop_last() =~= list.take(b));
        lemma_lengths_grow(list, b + 1);
        lemma_lengths_grow(list, b);
        assert(spans(path).last() == segment_spans(list)[count - 1]);
        assert forall|n: int| 0 <= n < spans(path).len() implies 0 <= (#[trigger] spans(path)[n]).0
            <= spans(path).last().1 by {
            if root <= n < spans(path).len() - 1 {
                let a = lemma_component_at(list, n - root);
                lemma_component_order_of_segments(list, n - root, a, count - 1, b);
                lemma_lengths_grow(list.take(b), a);
                lemma_lengths_grow(list, a);
                assert(list.take(b).take(a) =~= list.take(a));
                assert(spans(path)[n] == segment_spans(list)[n - root]);
            }
        }
    }
}

/// Components come from segments in the same order.
proof fn lemma_component_order_of_segments(segments: Seq<Seq<char>>, n: int, a: int, m: int, b: int)
    requires
        0 <= n < m <= segment_components(segments).len(),
        0 <= a <= segments.len(),
        0 <= b <= segments.len(),
        segment_components(segments.take(a)) == segment_components(segments).take(n),
        segment_components(segments.take(b)) == segment_components(segments).take(m),
    ensures
        a < b,
{
    if b <= a {
        lemma_components_grow(segments.take(a), b);
        assert(segments.take(a).take(b) =~= segments.take(b));
    }
}

/// What segments mean that do not stand at the start.
spec fn later_components(segments: Seq<Seq<char>>) -> Seq<Component>
    decreases segments.len(),
{
    if segments.len() == 0 {
        Seq::empty()
    } else {
        let before = later_components(segments.drop_last());
        match segment_component(segments.last(), false) {
            Some(component) => before.push(component),
            None => before,
        }
    }
}

proof fn lemma_components_of_sum(low: Seq<Seq<char>>, high: Seq<Seq<char>>)
    requires
        low.len() >= 1,
    ensures
        segment_components(low + high) == segment_components(low) + later_components(high),
    decreases high.len(),
{
    if high.len() == 0 {
        assert(low + high =~= low);
        assert(segment_components(low) + later_components(high) =~= segment_components(low));
    } else {
        lemma_components_of_sum(low, high.drop_last());
        assert((low + high).drop_last() =~= low + high.drop_last());
        assert(segment_components(low + high) =~= segment_components(low) + later_components(high));
    }
}

/// Behind a slash the segments start anew.
proof fn lemma_segments_behind_slash(directory: Seq<char>, path: Seq<char>)
    requires
        directory.len() > 0,
        directory.last() == '/',
    ensures
        segments(directory + path) == segments(directory).drop_last() + segments(path),
        segments(directory).len() >= 2,
    decreases path.len(),
{
    let low = segments(directory).drop_last();
    lemma_segments(directory.drop_last());
    if path.len() == 0 {
        assert(directory + path =~= directory);
        assert(low + segments(path) =~= segments(directory));
    } else {
        lemma_segments_behind_slash(directory, path.drop_last());
        lemma_segments(path.drop_last());
        assert((directory + path).drop_last() =~= directory + path.drop_last());
        assert(segments(directory + path) =~= low + segments(path));
    }
}

/// The components of a joined path.
proof fn lemma_joined_components(base: Seq<char>, path: Seq<char>)
    requires
        base.len() > 0,
        !is_absolute(path),
    ensures
        components(joined(base, path)) == components(base) + later_components(segments(path)),
        segments(joined(base, path)) == segments(as_directory(base)).drop_last() + segments(path),
        segments(as_directory(base)).len() >= 2,
        segment_components(segments(as_directory(base)).drop_last()) == segment_components(
            segments(base),
        ),
{
    let directory = as_directory(base);
    let whole = joined(base, path);
    lemma_segments_behind_slash(directory, path);
    let low = segments(directory).drop_last();
    lemma_components_of_sum(low, segments(path));
    assert(segment_components(low) == segment_components(segments(base))) by {
        if base.last() != '/' {
            assert(directory.drop_last() =~= base);
            assert(low =~= segments(base));
        }
    }
    assert(root_component(base) == root_component(whole)) by {
        assert(whole[0] == base[0]);
    }
    assert(components(whole) =~= components(base) + later_components(segments(path)));
}

proof fn lemma_joined_segments_of_sum(low: Seq<Seq<char>>, high: Seq<Seq<char>>)
    requires
        low.len() >= 1,
        high.len() >= 1,
    ensures
        joined_segments(low + high) == joined_segments(low).push('/') + joined_segments(high),
    decreases high.len(),
{
    assert((low + high).drop_last() =~= low + high.drop_last());
    if high.len() == 1 {
        assert(low + high.drop_last() =~= low);
    } else {
        lemma_joined_segments_of_sum(low, high.drop_last());
        let start = joined_segments(low).push('/');
        let middle = joined_segments(high.drop_last());
        assert((start + middle).push('/') + high.last() =~= start + (middle.push('/')
            + high.last()));
    }
}

proof fn lemma_joined_segments_length(segments: Seq<Seq<char>>)
    requires
        segments.len() >= 1,
    ensures
        joined_segments(segments).len() == segments_length(segments),
    decreases segments.len(),
{
    reveal_with_fuel(segments_length, 2);
    if segments.len() > 1 {
        lemma_joined_segments_length(segments.drop_last());
    }
}

/// Some segments in a row stand in the text in a row.
proof fn lemma_joined_segments_part(segments: Seq<Seq<char>>, a: int, b: int)
    requires
        0 <= a <= b < segments.len(),
    ensures
        0 <= segments_length(segments.take(a)) + 1 <= segments_length(segments.take(b)) + 1
            + segments[b].len() <= joined_segments(segments).len(),
        joined_segments(segments).subrange(
            segments_length(segments.take(a)) + 1,
            segments_length(segments.take(b)) + 1 + segments[b].len(),
        ) == joined_segments(segments.subrange(a, b + 1)),
{
    let part = segments.subrange(a, b + 1);
    let low = segments.take(a);
    let upto = segments.take(b + 1);
    let high = segments.skip(b + 1);
    let start = segments_length(low) + 1;
    let end = segments_length(upto);
    assert(upto.drop_last() =~= segments.take(b));
    lemma_lengths_grow(upto, a);
    assert(upto.take(a) =~= low);
    lemma_joined_segments_length(upto);
    assert(upto =~= low + part);
    if a > 0 {
        lemma_joined_segments_of_sum(low, part);
        lemma_joined_segments_length(low);
        assert(joined_segments(upto).subrange(start, end) =~= joined_segments(part));
    } else {
        assert(upto =~= part);
        assert(joined_segments(upto).subrange(0, end) =~= joined_segments(part));
    }
    lemma_lengths_grow(upto, b);
    assert(upto.take(b) =~= segments.take(b));
    if high.len() > 0 {
        assert(segments =~= upto + high);
        lemma_joined_segments_of_sum(upto, high);
    } else {
        assert(segments =~= upto);
    }
    assert(joined_segments(segments).subrange(start, end) =~= joined_segments(upto).subrange(
        start,
        end,
    ));
}

proof fn lemma_segments_append(path: Seq<char>, name: Seq<char>)
    requires
        !name.contains('/'),
    ensures
        segments(path + name) == segments(path).drop_last().push(segments(path).last() + name),
    decreases name.len(),
{
    lemma_segments(path);
    let low = segments(path).drop_last();
    let last = segments(path).last();
    if name.len() == 0 {
        assert(path + name =~= path);
        assert(last + name =~= last);
        assert(low.push(last) =~= segments(path));
    } else {
        let rest = name.drop_last();
        assert(!rest.contains('/')) by {
            if rest.contains('/') {
                let k = choose|k: int| 0 <= k < rest.len() && rest[k] == '/';
                assert(name[k] == '/');
            }
        }
        assert(name[name.len() - 1] != '/');
        lemma_segments_append(path, rest);
        assert((path + name).drop_last() =~= path + rest);
        assert((last + rest).push(name.last()) =~= last + name);
        assert(segments(path + name) =~= low.push(last + name));
    }
}

/// Taking a text apart undoes putting it together.
proof fn lemma_segments_of_joined(list: Seq<Seq<char>>)
    requires
        list.len() >= 1,
        forall|i: int| 0 <= i < list.len() ==> !(#[trigger] list[i]).contains('/'),
    ensures
        segments(joined_segments(list)) == list,
    decreases list.len(),
{
    if list.len() == 1 {
        let nothing = Seq::<char>::empty();
        assert(!list[0].contains('/'));
        lemma_segments_append(nothing, list[0]);
        assert(nothing + list[0] =~= list[0]);
        assert(segments(list[0]) =~= list);
    } else {
        let rest = list.drop_last();
        assert forall|i: int| 0 <= i < rest.len() implies !(#[trigger] rest[i]).contains('/') by {
            assert(rest[i] == list[i]);
        }
        lemma_segments_of_joined(rest);
        let directory = joined_segments(rest).push('/');
        assert(directory.drop_last() =~= joined_segments(rest));
        assert(!list[list.len() - 1].contains('/'));
        lemma_segments_append(directory, list.last());
        assert(segments(directory).drop_last() =~= rest);
        assert(Seq::<char>::empty() + list.last() =~= list.last());
        assert(segments(joined_segments(list)) =~= list);
    }
}

/// The segments of what remains of a path without its first components.
proof fn lemma_path_after(path: Seq<char>, n: int) -> (bounds: (int, int))
    requires
        root_component(path).len() <= n < components(path).len(),
    ensures
        ({
            let (a, b) = bounds;
            let list = segments(path);
            let left = n - root_component(path).len();
            &&& 0 <= a <= b < list.len()
            &&& segments(path_after(path, n)) == list.subrange(a, b + 1)
            &&& segment_components(list.take(a)) == segment_components(list).take(left)
            &&& segment_components(list.take(b + 1)) == segment_components(list)
            &&& segment_component(list[a], a == 0) == Some(segment_components(list)[left])
            &&& segment_components(list.take(b)).len() < segment_components(list).len()
        }),
{
    let list = segments(path);
    let found = segment_components(list);
    let left = n - root_component(path).len();
    let a = lemma_component_at(list, left);
    let b = if left < found.len() - 1 {
        lemma_component_at(list, found.len() - 1)
    } else {
        a
    };
    if left < found.len() - 1 {
        lemma_component_order_of_segments(list, left, a, found.len() - 1, b);
    }
    lemma_segments(path);
    lemma_joined_segments_part(list, a, b);
    let part = list.subrange(a, b + 1);
    assert forall|i: int| 0 <= i < part.len() implies !(#[trigger] part[i]).contains('/') by {
        assert(part[i] == list[a + i]);
    }
    lemma_segments_of_joined(part);
    lemma_spans(path);
    assert(spans(path)[n] == segment_spans(list)[left]);
    assert(spans(path).last() == segment_spans(list)[found.len() - 1]);
    assert(list.take(b + 1).drop_last() =~= list.take(b));
    assert(found.take(found.len() - 1).push(found[found.len() - 1]) =~= found);
    (a, b)
}

/// A path starts with a slash exactly if its first segment is empty, unless all of it is.
proof fn lemma_first_segment(path: Seq<char>)
    requires
        path.len() > 0,
    ensures
        segments(path).len() >= 1,
        is_absolute(path) <==> segments(path)[0].len() == 0,
        is_absolute(path) ==> segments(path).len() >= 2,
    decreases path.len(),
{
    let rest = path.drop_last();
    lemma_segments(rest);
    if path.len() == 1 {
        assert(segments(rest) =~= seq![Seq::<char>::empty()]);
    } else {
        lemma_first_segment(rest);
    }
}

/// Segments never mean the root.
proof fn lemma_segments_are_not_root(segments: Seq<Seq<char>>)
    ensures
        forall|k: int|
            0 <= k < segment_components(segments).len() ==> #[trigger] segment_components(
                segments,
            )[k] !is RootDir,
    decreases segments.len(),
{
    if segments.len() > 0 {
        lemma_segments_are_not_root(segments.drop_last());
    }
}

/// A path that starts with a name, or a dot, means something from its first segment on.
proof fn lemma_relative_start(path: Seq<char>)
    requires
        path.len() > 0,
        !is_absolute(path),
    ensures
        components(path).len() >= 1,
        spans(path)[0].0 == 0,
{
    let list = segments(path);
    lemma_first_segment(path);
    lemma_components_grow(list, 1);
    reveal_with_fuel(segment_components, 2);
    assert(list.take(1).drop_last() =~= Seq::empty());
    assert(segment_components(list.take(1)).len() == 1);
    let i = lemma_component_at(list, 0);
    if i > 0 {
        lemma_components_grow(list.take(i), 1);
        assert(list.take(i).take(1) =~= list.take(1));
    }
    assert(list.take(0) =~= Seq::empty());
}

/// Without the slashes around it a path is the same.
proof fn lemma_path_after_nothing(path: Seq<char>)
    ensures
        same_path(path_after(path, 0), path),
{
    let rest = path_after(path, 0);
    let list = segments(path);
    let found = segment_components(list);
    reveal_with_fuel(segment_components, 3);
    lemma_spans(path);
    if path.len() == 0 {
        assert(path =~= Seq::empty());
        assert(components(path) =~= Seq::empty());
    } else if found.len() == 0 {
        lemma_no_components(list);
        if !is_absolute(path) {
            lemma_relative_start(path);
        }
        assert(rest =~= seq!['/']);
        assert(rest.drop_last() =~= Seq::empty());
        reveal_with_fuel(segments, 2);
        assert(segments(rest) =~= seq![Seq::<char>::empty(), Seq::<char>::empty()]);
        assert(segments(rest).drop_last() =~= seq![Seq::<char>::empty()]);
        assert(segments(rest).drop_last().drop_last() =~= Seq::empty());
        assert(components(rest) =~= components(path));
    } else {
        if !is_absolute(path) {
            lemma_relative_start(path);
        }
        assert(spans(path)[0].0 == 0);
        let b = lemma_component_at(list, found.len() - 1);
        assert(spans(path).last() == segment_spans(list)[found.len() - 1]);
        lemma_segments(path);
        lemma_joined_segments_part(list, 0, b);
        assert(list.take(0) =~= Seq::empty());
        assert(list.subrange(0, b + 1) =~= list.take(b + 1));
        let part = list.take(b + 1);
        assert forall|i: int| 0 <= i < part.len() implies !(#[trigger] part[i]).contains('/') by {
            assert(part[i] == list[i]);
        }
        lemma_segments_of_joined(part);
        assert(part.drop_last() =~= list.take(b));
        assert(found.take(found.len() - 1).push(found[found.len() - 1]) =~= found);
        lemma_lengths_grow(list, b);
        assert(rest.len() > 0 && rest[0] == path[0]);
        assert(components(rest) =~= components(path));
    }
}

/// Only a path that starts at the root lies below one that does.
proof fn lemma_same_root(path: Seq<char>, base: Seq<char>)
    requires
        base.len() > 0,
        components(base).is_prefix_of(components(path)),
    ensures
        is_absolute(base) == is_absolute(path),
        components(base).len() >= 1,
{
    let count = components(base).len() as int;
    if !is_absolute(base) {
        lemma_relative_start(base);
    }
    assert(components(base)[0] == components(path).subrange(0, count)[0]);
    lemma_segments_are_not_root(segments(base));
    lemma_segments_are_not_root(segments(path));
    if !is_absolute(base) {
        assert(components(base)[0] == segment_components(segments(base))[0]);
    }
    if !is_absolute(path) {
        assert(components(path)[0] == segment_components(segments(path))[0]);
    }
}

/// Away from the start a single dot means nothing; all else means what it does there.
proof fn lemma_later_components(segments: Seq<Seq<char>>)
    requires
        segments.len() >= 1,
    ensures
        ({
            let all = segment_components(segments);
            later_components(segments) == if all.len() > 0 && all[0] is CurDir {
                all.skip(1)
            } else {
                all
            }
        }),
    decreases segments.len(),
{
    let all = segment_components(segments);
    let rest = segments.drop_last();
    if segments.len() == 1 {
        reveal_with_fuel(segment_components, 2);
        reveal_with_fuel(later_components, 2);
        assert(rest =~= Seq::empty());
        if all.len() > 0 && all[0] is CurDir {
            assert(later_components(segments) =~= all.skip(1));
        } else {
            assert(later_components(segments) =~= all);
        }
    } else {
        lemma_later_components(rest);
        let before = segment_components(rest);
        if before.len() > 0 && before[0] is CurDir {
            assert(all[0] == before[0]);
            assert(later_components(segments) =~= all.skip(1));
        } else {
            assert(later_components(segments) =~= all);
        }
    }
}

/// What remains of a path below a base does not start at the root of the file system.
proof fn lemma_rest_is_relative(path: Seq<char>, base: Seq<char>)
    requires
        base.len() > 0,
        relative_to(path, base) is Some,
    ensures
        !is_absolute(relative_to(path, base)->0),
{
    let rest = relative_to(path, base)->0;
    let count = components(base).len() as int;
    lemma_spans(path);
    lemma_same_root(path, base);
    if count < components(path).len() && is_absolute(rest) {
        let (a, b) = lemma_path_after(path, count);
        assert(segments(rest)[0] == segments(path)[a]);
        lemma_first_segment(rest);
    }
}

/// Taking the base off keeps different paths different.
pub proof fn law_strip_keeps_paths_apart(a: Seq<char>, b: Seq<char>, base: Seq<char>)
    requires
        relative_to(a, base) is Some,
        relative_to(b, base) is Some,
        same_path(relative_to(a, base)->0, relative_to(b, base)->0),
    ensures
        same_path(a, b),
{
    let x = relative_to(a, base)->0;
    let y = relative_to(b, base)->0;
    law_join_undoes_strip(a, base);
    law_join_undoes_strip(b, base);
    if base.len() == 0 {
        assert(as_directory(base) + x =~= x);
        assert(as_directory(base) + y =~= y);
    } else {
        lemma_rest_is_relative(a, base);
        lemma_rest_is_relative(b, base);
        lemma_joined_components(base, x);
        lemma_joined_components(base, y);
        lemma_segments(x);
        lemma_segments(y);
        lemma_later_components(segments(x));
        lemma_later_components(segments(y));
        assert(components(x) =~= segment_components(segments(x)));
        assert(components(y) =~= segment_components(segments(y)));
    }
}

/// Joining keeps the same paths the same.
pub proof fn law_joining_keeps_paths_same(base: Seq<char>, a: Seq<char>, b: Seq<char>)
    requires
        same_path(a, b),
    ensures
        same_path(joined(base, a), joined(base, b)),
{
    lemma_segments_are_not_root(segments(a));
    lemma_segments_are_not_root(segments(b));
    if is_absolute(a) {
        assert(components(a)[0] is RootDir);
        if !is_absolute(b) {
            assert(components(b) =~= segment_components(segments(b)));
        }
    } else {
        assert(components(a) =~= segment_components(segments(a)));
        if is_absolute(b) {
            assert(components(b)[0] is RootDir);
        }
        assert(components(b) =~= segment_components(segments(b)));
        if base.len() == 0 {
            assert(as_directory(base) + a =~= a);
            assert(as_directory(base) + b =~= b);
        } else {
            lemma_joined_components(base, a);
            lemma_joined_components(base, b);
            lemma_segments(a);
            lemma_segments(b);
            lemma_later_components(segments(a));
            lemma_later_components(segments(b));
        }
    }
}

/// Joining undoes taking the base off: what remains below the base, joined onto it again, names
/// the same path.
pub proof fn law_join_undoes_strip(path: Seq<char>, base: Seq<char>)
    requires
        relative_to(path, base) is Some,
    ensures
        same_path(joined(base, relative_to(path, base)->0), path),
{
    let rest = relative_to(path, base)->0;
    let count = components(base).len() as int;
    let root = root_component(path).len() as int;
    let list = segments(path);
    let found = segment_components(list);
    lemma_spans(path);
    assert(components(base) == components(path).subrange(0, count));
    if base.len() == 0 {
        assert(base =~= Seq::empty());
        reveal_with_fuel(segment_components, 2);
        assert(components(base) =~= Seq::empty());
        lemma_path_after_nothing(path);
        if !is_absolute(rest) {
            assert(Seq::<char>::empty() + rest =~= rest);
        }
    } else {
        lemma_same_root(path, base);
        if count == components(path).len() {
            assert(rest =~= Seq::empty());
            lemma_joined_components(base, rest);
            reveal_with_fuel(later_components, 2);
            assert(later_components(segments(rest)) =~= Seq::empty());
            assert(components(joined(base, rest)) =~= components(path));
        } else {
            let (a, b) = lemma_path_after(path, count);
            let part = list.subrange(a, b + 1);
            if a == 0 {
                lemma_first_segment(path);
            }
            assert(list.take(b + 1) =~= list.take(a) + part);
            lemma_components_of_sum(list.take(a), part);
            lemma_rest_is_relative(path, base);
            lemma_joined_components(base, rest);
            assert(components(joined(base, rest)) =~= components(path));
        }
    }
}

/// The path is a name, or names with single slashes between them, as a walk through a directory
/// finds them.
pub open spec fn is_plain(path: Seq<char>) -> bool {
    forall|i: int|
        0 <= i < segments(path).len() ==> (#[trigger] segments(path)[i]).len() > 0 && segments(
            path,
        )[i] != seq!['.']
}

/// Taking the base off undoes joining onto it.
pub proof fn law_strip_undoes_join(base: Seq<char>, path: Seq<char>)
    requires
        is_plain(path) || path.len() == 0,
    ensures
        relative_to(joined(base, path), base) == Some(path),
{
    let whole = joined(base, path);
    let list = segments(path);
    let all = segments(whole);
    let count = components(base).len() as int;
    lemma_segments(path);
    lemma_segments(whole);
    lemma_spans(whole);
    if path.len() == 0 {
        assert(path =~= Seq::empty());
    } else {
        assert(list[0].len() > 0);
        assert(list[list.len() - 1].len() > 0);
        lemma_first_segment(path);
    }
    if base.len() == 0 {
        assert(base =~= Seq::empty());
        reveal_with_fuel(segment_components, 2);
        assert(components(base) =~= Seq::empty());
        assert(components(base) =~= components(whole).subrange(0, 0));
        assert(whole =~= path);
        if path.len() > 0 {
            lemma_relative_start(path);
            assert(spans(path).last().1 == path.len());
        }
        assert(path_after(whole, 0) =~= path);
    } else {
        lemma_joined_components(base, path);
        assert(components(base) =~= components(whole).subrange(0, count));
        let directory = as_directory(base);
        let low = segments(directory).drop_last();
        if path.len() == 0 {
            reveal_with_fuel(later_components, 2);
            assert(later_components(list) =~= Seq::empty());
        } else {
            let kept = low.len() as int;
            let left = segment_components(low).len() as int;
            lemma_same_root(whole, base);
            assert(all[kept] == list[0]);
            assert(all[all.len() - 1] == list[list.len() - 1]);
            assert(all.take(kept) =~= low);
            assert(all.take(kept + 1).drop_last() =~= low);
            lemma_components_grow(all, kept + 1);
            let i = lemma_component_at(all, left);
            if i < kept {
                lemma_components_grow(low, i + 1);
                assert(low.take(i + 1).drop_last() =~= all.take(i));
            }
            if i > kept {
                lemma_components_grow(all.take(i), kept + 1);
                assert(all.take(i).take(kept + 1) =~= all.take(kept + 1));
            }
            lemma_segments(directory);
            assert(segments(directory).last().len() == 0);
            assert(spans(whole)[count] == segment_spans(all)[left]);
            assert(spans(whole).last().1 == whole.len());
            assert(path_after(whole, count) =~= path);
        }
    }
}

/// The path steps up to a parent directory somewhere.
pub open spec fn steps_up(path: Seq<char>) -> bool {
    components(path).contains(Component::ParentDir)
}

/// The path starts with the components of `base` and never steps up from there.
pub open spec fn lies_below(path: Seq<char>, base: Seq<char>) -> bool {
    &&& components(base).is_prefix_of(components(path))
    &&& forall|i: int|
        components(base).len() <= i < components(path).len() ==> #[trigger] components(path)[i]
            !is ParentDir
}

/// What is joined onto a base starts with the components of the base, unless it starts at the root
/// of the file system. It may still step up from there.
pub proof fn law_joined_path_starts_with_base(base: Seq<char>, path: Seq<char>)
    requires
        !is_absolute(path),
    ensures
        components(base).is_prefix_of(components(joined(base, path))),
{
    let whole = joined(base, path);
    if base.len() == 0 {
        reveal_with_fuel(segment_components, 2);
        assert(components(base) =~= Seq::empty());
        assert(components(whole).subrange(0, 0) =~= Seq::empty());
    } else {
        lemma_joined_components(base, path);
        assert(components(base) =~= components(whole).subrange(0, components(base).len() as int));
    }
}

/// What is joined onto a base lies below it, unless it starts at the root of the file system or
/// steps up to a parent directory.
pub proof fn law_joined_path_lies_below_base(base: Seq<char>, path: Seq<char>)
    requires
        !is_absolute(path),
        !steps_up(path),
    ensures
        lies_below(joined(base, path), base),
{
    let whole = joined(base, path);
    law_joined_path_starts_with_base(base, path);
    if base.len() == 0 {
        assert(whole =~= path);
    } else {
        lemma_joined_components(base, path);
        lemma_segments(path);
        lemma_later_components(segments(path));
        let later = later_components(segments(path));
        let all = segment_components(segments(path));
        assert(components(path) =~= all);
        assert forall|i: int| components(base).len() <= i < components(whole).len() implies
            #[trigger] components(whole)[i] !is ParentDir by {
            let k = i - components(base).len();
            assert(components(whole)[i] == later[k]);
            if later.len() < all.len() {
                assert(later[k] == all[k + 1]);
            } else {
                assert(later[k] == all[k]);
            }
        }
    }
}

/// A path that starts at the root stands on its own, wherever it is joined.
pub proof fn law_absolute_path_replaces_base(base: Seq<char>, path: Seq<char>)
    requires
        is_absolute(path),
    ensures
        joined(base, path) == path,
{
}

/// Joining puts one slash between the two texts, unless there is one at the end of the base or nothing
/// to put it behind. A path that starts with a slash is taken as it is.
pub proof fn law_join_puts_a_slash_between(base: Seq<char>, path: Seq<char>)
    ensures
        path.len() > 0 && path[0] == '/' ==> joined(base, path) == path,
        (path.len() == 0 || path[0] != '/') && (base.len() == 0 || base[base.len() - 1] == '/')
            ==> joined(base, path) == base + path,
        (path.len() == 0 || path[0] != '/') && base.len() > 0 && base[base.len() - 1] != '/'
            ==> joined(base, path) == base + seq!['/'] + path,
{
    if base.len() > 0 {
        assert(base.push('/') =~= base + seq!['/']);
    }
}

/// Two texts name the same path exactly if they consist of the same components.
pub proof fn law_same_path(a: Seq<char>, b: Seq<char>)
    ensures
        same_path(a, b) <==> components(a) == components(b),
{
}

proof fn lemma_segments_of_name(name: Seq<char>)
    requires
        !name.contains('/'),
    ensures
        segments(name) == seq![name],
{
    let nothing = Seq::<char>::empty();
    lemma_segments_append(nothing, name);
    assert(nothing + name =~= name);
    assert(segments(name) =~= seq![name]);
}

/// What a text without slashes consists of: nothing, a dot or two dots, or a name.
pub proof fn law_components_of_name(name: Seq<char>)
    requires
        forall|i: int| 0 <= i < name.len() ==> #[trigger] name[i] != '/',
    ensures
        components(name) == if name.len() == 0 {
            Seq::empty()
        } else if name == seq!['.'] {
            seq![Component::CurDir]
        } else if name == seq!['.', '.'] {
            seq![Component::ParentDir]
        } else {
            seq![Component::Normal(name)]
        },
{
    assert(!name.contains('/'));
    lemma_segments_of_name(name);
    reveal_with_fuel(segment_components, 2);
    assert(seq![name].drop_last() =~= Seq::empty());
    let expected = if name.len() == 0 {
        Seq::empty()
    } else if name == seq!['.'] {
        seq![Component::CurDir]
    } else if name == seq!['.', '.'] {
        seq![Component::ParentDir]
    } else {
        seq![Component::Normal(name)]
    };
    assert(components(name) =~= expected);
}

/// What stands behind the last slash of a path adds one component to those of what stands before it:
/// a name or two dots. Nothing and a single dot add none. With nothing before that slash the path
/// starts at the root.
pub proof fn law_components_behind_slash(path: Seq<char>, name: Seq<char>)
    requires
        forall|i: int| 0 <= i < name.len() ==> #[trigger] name[i] != '/',
    ensures
        components(path + seq!['/'] + name) == (if path.len() == 0 {
            seq![Component::RootDir]
        } else {
            components(path)
        }) + if name.len() == 0 || name == seq!['.'] {
            Seq::empty()
        } else if name == seq!['.', '.'] {
            seq![Component::ParentDir]
        } else {
            seq![Component::Normal(name)]
        },
{
    let directory = path.push('/');
    let whole = path + seq!['/'] + name;
    assert(!name.contains('/'));
    assert(whole =~= directory + name);
    assert(directory.drop_last() =~= path);
    lemma_segments_behind_slash(directory, name);
    lemma_segments_of_name(name);
    lemma_segments(path);
    assert(segments(directory).drop_last() =~= segments(path));
    lemma_components_of_sum(segments(path), seq![name]);
    reveal_with_fuel(later_components, 2);
    assert(seq![name].drop_last() =~= Seq::empty());
    let added = if name.len() == 0 || name == seq!['.'] {
        Seq::empty()
    } else if name == seq!['.', '.'] {
        seq![Component::ParentDir]
    } else {
        seq![Component::Normal(name)]
    };
    assert(later_components(seq![name]) =~= added);
    if path.len() == 0 {
        reveal_with_fuel(segment_components, 2);
        assert(path =~= Seq::empty());
        assert(segments(path) =~= seq![Seq::<char>::empty()]);
        assert(seq![Seq::<char>::empty()].drop_last() =~= Seq::empty());
        assert(components(whole) =~= seq![Component::RootDir] + added);
    } else {
        assert(whole[0] == path[0]);
        assert(components(whole) =~= components(path) + added);
    }
}

/// The first component in which two paths differ decides which comes first: the root before a dot,
/// a dot before two, these before names, and names by their text. Where one ends first, it comes
/// first.
pub proof fn law_path_order_by_first_difference(a: Seq<char>, b: Seq<char>, i: int)
    requires
        0 <= i <= components(a).len(),
        i <= components(b).len(),
        forall|j: int| 0 <= j < i ==> #[trigger] components(a)[j] == components(b)[j],
    ensures
        i == components(b).len() ==> !path_before(a, b),
        i == components(a).len() && i < components(b).len() ==> path_before(a, b),
        i < components(a).len() && i < components(b).len() && components(a)[i] != components(b)[i]
            ==> (path_before(a, b) <==> match (components(a)[i], components(b)[i]) {
            (Component::Normal(x), Component::Normal(y)) => text_before(x, y),
            (Component::Normal(_), _) => false,
            (_, Component::Normal(_)) => true,
            (Component::RootDir, _) => true,
            (_, Component::RootDir) => false,
            (Component::CurDir, _) => true,
            (_, _) => false,
        }),
{
    lemma_component_order();
    let (p, q) = (components(a), components(b));
    let lt = component_order();
    if i < q.len() && (i == p.len() || lt(p[i], q[i])) {
        assert(lex_before_at(p, q, lt, i));
    } else if i == q.len() || p[i] != q[i] {
        assert forall|k: int| !#[trigger] lex_before_at(p, q, lt, k) by {
            if lex_before_at(p, q, lt, k) {
                if k < i {
                    assert(p[k] == q[k]);
                    assert(!lt(p[k], p[k]));
                } else if k > i {
                    assert(p[i] == q[i]);
                }
            }
        }
    }
}

/// There is something left of a path below a base exactly if its components start with those of the
/// base, and that is a stretch of the path's own text.
pub proof fn law_strip_takes_from_the_path(path: Seq<char>, base: Seq<char>)
    ensures
        relative_to(path, base) is Some <==> {
            &&& components(base).len() <= components(path).len()
            &&& forall|i: int|
                0 <= i < components(base).len() ==> #[trigger] components(path)[i] == components(
                    base,
                )[i]
        },
        relative_to(path, base) matches Some(rest) ==> exists|start: int, end: int|
            0 <= start <= end <= path.len() && rest == #[trigger] path.subrange(start, end),
        relative_to(path, base) matches Some(rest) ==> (rest.len() == 0 <==> components(
            path,
        ).len() == components(base).len()),
{
    let (p, q) = (components(path), components(base));
    if q.len() <= p.len() && (forall|i: int| 0 <= i < q.len() ==> #[trigger] p[i] == q[i]) {
        assert(q =~= p.subrange(0, q.len() as int));
    }
    if relative_to(path, base) is Some {
        let rest = relative_to(path, base)->0;
        let count = q.len() as int;
        assert(q == p.subrange(0, count));
        assert forall|i: int| 0 <= i < count implies #[trigger] p[i] == q[i] by {
            assert(p.subrange(0, count)[i] == p[i]);
        }
        lemma_spans(path);
        if count < p.len() {
            let start = spans(path)[count].0;
            let end = spans(path).last().1;
            assert(rest == path.subrange(start, end));
            lemma_spans_are_not_empty(path, count);
        } else {
            assert(rest =~= path.subrange(0, 0));
        }
    }
}

/// What remains from a component on is not nothing.
proof fn lemma_spans_are_not_empty(path: Seq<char>, n: int)
    requires
        0 <= n < spans(path).len(),
    ensures
        spans(path)[n].0 < spans(path).last().1,
{
    let list = segments(path);
    let found = segment_components(list);
    let root = root_component(path).len() as int;
    let count = found.len() as int;
    lemma_spans(path);
    lemma_segments(path);
    if count == 0 {
        lemma_no_components(list);
    } else {
        let b = lemma_component_at(list, count - 1);
        assert(spans(path).last() == segment_spans(list)[count - 1]);
        lemma_lengths_grow(list, b);
        if n >= root {
            let a = lemma_component_at(list, n - root);
            assert(spans(path)[n] == segment_spans(list)[n - root]);
            if n - root < count - 1 {
                lemma_component_order_of_segments(list, n - root, a, count - 1, b);
                lemma_lengths_grow(list.take(b), a);
                assert(list.take(b).take(a) =~= list.take(a));
            }
        } else {
            if b == 0 {
                lemma_first_segment(path);
            }
        }
    }
}

/// Below the same root, files stand in different places, if their folders are single names and their
/// paths plain, and either differs.
pub proof fn law_different_paths_stand_apart(
    root: Seq<char>,
    folder: Seq<char>,
    path: Seq<char>,
    other_folder: Seq<char>,
    other_path: Seq<char>,
)
    requires
        is_name(folder),
        is_name(other_folder),
        is_plain(path),
        is_plain(other_path),
        folder != other_folder || path != other_path,
    ensures
        !same_path(joined(joined(root, folder), path), joined(joined(root, other_folder), other_path)),
{
    lemma_components_of_location(root, folder, path);
    lemma_components_of_location(root, other_folder, other_path);
    let low = components(root);
    let one = low + components(folder) + components(path);
    let other = low + components(other_folder) + components(other_path);
    law_components_of_name(folder);
    law_components_of_name(other_folder);
    if one == other {
        let n = low.len() as int;
        assert(one[n] == components(folder)[0]);
        assert(other[n] == components(other_folder)[0]);
        assert(components(path) =~= one.skip(n + 1));
        assert(components(other_path) =~= other.skip(n + 1));
        lemma_plain_paths(path, other_path);
    }
}

/// A single name, or two dots.
pub open spec fn is_name(text: Seq<char>) -> bool {
    &&& text.len() > 0
    &&& text != seq!['.']
    &&& forall|i: int| 0 <= i < text.len() ==> #[trigger] text[i] != '/'
}

proof fn lemma_plain_path(path: Seq<char>)
    requires
        is_plain(path),
    ensures
        path.len() > 0,
        !is_absolute(path),
        later_components(segments(path)) == components(path),
        components(path).len() > 0,
{
    lemma_segments(path);
    let list = segments(path);
    assert(list[0].len() > 0);
    if path.len() == 0 {
        assert(path =~= Seq::empty());
    }
    lemma_first_segment(path);
    lemma_later_components(list);
    lemma_relative_start(path);
    let n = lemma_component_at(list, 0);
    assert(list[n] != seq!['.']);
    assert(components(path) =~= segment_components(list));
}

proof fn lemma_components_of_location(root: Seq<char>, folder: Seq<char>, path: Seq<char>)
    requires
        is_name(folder),
        is_plain(path),
    ensures
        components(joined(joined(root, folder), path)) == components(root) + components(folder)
            + components(path),
{
    let directory = joined(root, folder);
    assert(!folder.contains('/'));
    lemma_segments_of_name(folder);
    assert(is_plain(folder)) by {
        assert forall|i: int| 0 <= i < segments(folder).len() implies (
        #[trigger] segments(folder)[i]).len() > 0 && segments(folder)[i] != seq!['.'] by {
            assert(segments(folder)[i] == folder);
        }
    }
    lemma_plain_path(folder);
    lemma_plain_path(path);
    if root.len() == 0 {
        assert(as_directory(root) + folder =~= folder);
        reveal_with_fuel(segment_components, 2);
        assert(root =~= Seq::empty());
        assert(components(root) =~= Seq::empty());
        assert(components(root) + components(folder) =~= components(folder));
    } else {
        lemma_joined_components(root, folder);
    }
    assert(directory.len() > 0);
    lemma_joined_components(directory, path);
}

/// Plain segments mean something each, and what they mean gives them back.
proof fn lemma_plain_segments(list: Seq<Seq<char>>)
    requires
        forall|i: int|
            0 <= i < list.len() ==> (#[trigger] list[i]).len() > 0 && list[i] != seq!['.'],
    ensures
        segment_components(list).len() == list.len(),
        forall|i: int|
            0 <= i < list.len() ==> #[trigger] segment_components(list)[i] == if list[i] == seq![
                '.',
                '.',
            ] {
                Component::ParentDir
            } else {
                Component::Normal(list[i])
            },
    decreases list.len(),
{
    if list.len() > 0 {
        let rest = list.drop_last();
        assert forall|i: int| 0 <= i < rest.len() implies (#[trigger] rest[i]).len() > 0 && rest[i]
            != seq!['.'] by {
            assert(rest[i] == list[i]);
        }
        lemma_plain_segments(rest);
        assert(list[list.len() - 1].len() > 0);
        assert forall|i: int| 0 <= i < list.len() implies #[trigger] segment_components(list)[i]
            == if list[i] == seq!['.', '.'] {
            Component::ParentDir
        } else {
            Component::Normal(list[i])
        } by {
            if i < rest.len() {
                assert(rest[i] == list[i]);
                assert(segment_components(rest)[i] == segment_components(list)[i]);
            }
        }
    }
}

proof fn lemma_plain_paths(a: Seq<char>, b: Seq<char>)
    requires
        is_plain(a),
        is_plain(b),
        components(a) == components(b),
    ensures
        a == b,
{
    let (p, q) = (segments(a), segments(b));
    lemma_plain_path(a);
    lemma_plain_path(b);
    lemma_plain_segments(p);
    lemma_plain_segments(q);
    assert(components(a) =~= segment_components(p));
    assert(components(b) =~= segment_components(q));
    assert forall|i: int| 0 <= i < p.len() implies p[i] == q[i] by {
        assert(segment_components(p)[i] == segment_components(q)[i]);
    }
    assert(p =~= q);
    lemma_segments(a);
    lemma_segments(b);
}

/// Plain texts name the same path only if they are the same text.
pub proof fn law_plain_paths_are_their_text(a: Seq<char>, b: Seq<char>)
    requires
        is_plain(a),
        is_plain(b),
    ensures
        same_path(a, b) <==> a == b,
{
    if same_path(a, b) {
        lemma_plain_paths(a, b);
    }
}

/// The executable form of a component says which it is, and its name.
pub proof fn law_parts_say_their_component(part: Part)
    ensures
        match part {
            Part::RootDir => part@ == Component::RootDir,
            Part::CurDir => part@ == Component::CurDir,
            Part::ParentDir => part@ == Component::ParentDir,
            Part::Normal(name) => part@ == Component::Normal(name@),
        },
{
}

/// What remains of a path below a base consists of the path's further components, and ends where the
/// last of them ends.
pub proof fn law_rest_has_the_further_components(path: Seq<char>, base: Seq<char>)
    requires
        base.len() > 0,
        relative_to(path, base) is Some,
    ensures
        ({
            let rest = relative_to(path, base)->0;
            &&& components(rest) == components(path).skip(components(base).len() as int)
            &&& rest.len() > 0 ==> rest[0] != '/' && rest.last() != '/'
            &&& rest.len() > 1 ==> !(rest.last() == '.' && rest[rest.len() - 2] == '/')
        }),
{
    let rest = relative_to(path, base)->0;
    let count = components(base).len() as int;
    let root = root_component(path).len() as int;
    let list = segments(path);
    lemma_spans(path);
    lemma_same_root(path, base);
    lemma_rest_is_relative(path, base);
    assert(components(base) == components(path).subrange(0, count));
    if count == components(path).len() {
        assert(rest =~= Seq::empty());
        reveal_with_fuel(segment_components, 2);
        assert(components(rest) =~= Seq::empty());
        assert(components(path).skip(count) =~= Seq::empty());
    } else {
        let (a, b) = lemma_path_after(path, count);
        let part = list.subrange(a, b + 1);
        if a == 0 {
            lemma_first_segment(path);
        }
        assert(list.take(b + 1) =~= list.take(a) + part);
        lemma_components_of_sum(list.take(a), part);
        lemma_later_components(part);
        let all = segment_components(part);
        assert(part[0] == list[a]);
        assert(segment_component(list[a], false) is Some);
        assert(part[0] != seq!['.']);
        lemma_first_component(part);
        assert(components(rest) =~= all);
        let found = segment_components(list);
        assert(found =~= found.take(count - root) + all);
        assert(components(path).skip(count) =~= all);
        lemma_last_segment(path, count, a, b);
    }
}

/// The first segment means what comes first.
proof fn lemma_first_component(segments: Seq<Seq<char>>)
    requires
        segments.len() >= 1,
        segment_component(segments[0], true) is Some,
    ensures
        segment_components(segments).len() >= 1,
        Some(segment_components(segments)[0]) == segment_component(segments[0], true),
    decreases segments.len(),
{
    if segments.len() == 1 {
        reveal_with_fuel(segment_components, 2);
        assert(segments.drop_last() =~= Seq::empty());
    } else {
        lemma_first_component(segments.drop_last());
    }
}

/// The last segment of what remains means something.
proof fn lemma_last_segment(path: Seq<char>, n: int, a: int, b: int)
    requires
        root_component(path).len() <= n < components(path).len(),
        0 <= a <= b < segments(path).len(),
        segments(path_after(path, n)) == segments(path).subrange(a, b + 1),
        a > 0,
        segment_components(segments(path).take(b + 1)) == segment_components(segments(path)),
        segment_components(segments(path).take(b)).len() < segment_components(segments(path)).len(),
    ensures
        ({
            let rest = path_after(path, n);
            &&& rest.len() > 0 ==> rest.last() != '/'
            &&& rest.len() > 1 ==> !(rest.last() == '.' && rest[rest.len() - 2] == '/')
        }),
{
    let rest = path_after(path, n);
    let list = segments(path);
    let part = segments(rest);
    assert(list.take(b + 1).drop_last() =~= list.take(b));
    assert(segment_component(list[b], b == 0) is Some);
    assert(part.last() == list[b]);
    assert(part.last().len() > 0 && part.last() != seq!['.']);
    if rest.len() > 1 && rest.last() == '.' && rest[rest.len() - 2] == '/' {
        let before = rest.drop_last();
        assert(before.last() == '/');
        assert(segments(before).last() =~= Seq::empty());
        assert(part.last() =~= seq!['.']);
    }
}

} // verus!
