//! Route pattern parsing and matching
//!
//! Supports:
//! - Static segments: `/users`, `/api/v1`
//! - Parameters: `/users/:id`, `/posts/:postId/comments/:commentId`
//! - Wildcards: `/static/*` (captures rest of path)
use crate::string_map::StringMap;
use crate::text::{
    lemma_before_first_absent, lemma_before_first_trim, lemma_components_trailing_slash,
    lemma_components_trim,
    before_first, chars_of, components, components_of, find_char, join_with, lacks,
    lemma_components_join, lemma_join_lacks, lemma_split_once_at, lemma_split_once_none, push_char,
    starts_with_char, string_of_range, trim_leading, trim_leading_chars, views,
};
use vstd::prelude::*;

verus! {

/// A segment in a route pattern
#[derive(Debug, Clone, PartialEq)]
pub enum Segment {
    /// Static path segment (e.g., "users")
    Static(String),
    /// Named parameter (e.g., ":id" captures "id")
    Param(String),
    /// Wildcard captures rest of path
    Wildcard,
}

/// What a segment stands for, over character sequences.
pub enum SegmentModel {
    Static(Seq<char>),
    Param(Seq<char>),
    Wildcard,
}

impl View for Segment {
    type V = SegmentModel;

    open spec fn view(&self) -> SegmentModel {
        match self {
            Segment::Static(s) => SegmentModel::Static(s@),
            Segment::Param(s) => SegmentModel::Param(s@),
            Segment::Wildcard => SegmentModel::Wildcard,
        }
    }
}

/// Parsed route pattern for efficient matching
#[derive(Debug, Clone)]
pub struct RoutePattern {
    /// Pattern segments
    pub segments: Vec<Segment>,
    /// Pattern string, as given to `parse`
    pub raw: String,
}

/// The segment a pattern component stands for: `:name` is a parameter, `*`
/// the wildcard, anything else a literal.
pub open spec fn segment_of(part: Seq<char>) -> SegmentModel {
    if starts_with_char(part, ':') {
        SegmentModel::Param(part.drop_first())
    } else if part == seq!['*'] {
        SegmentModel::Wildcard
    } else {
        SegmentModel::Static(part)
    }
}

/// The segments `RoutePattern::parse` makes of `path`.
pub open spec fn parse_segments(path: Seq<char>) -> Seq<SegmentModel> {
    components(trim_leading(path, '/')).map_values(|p: Seq<char>| segment_of(p))
}

/// The path components a request path is matched on: leading slashes and any
/// query string removed, then split on `/` with empty pieces dropped.
pub open spec fn request_parts(path: Seq<char>) -> Seq<Seq<char>> {
    components(before_first(trim_leading(path, '/'), '?'))
}

/// Matching segments against request components, left to right, with the
/// parameters captured so far in `acc`. A static segment must equal its
/// component, a parameter captures one component, a wildcard captures the rest
/// joined with `/`; without a wildcard every component must be consumed.
pub open spec fn match_segments(
    segs: Seq<SegmentModel>,
    parts: Seq<Seq<char>>,
    acc: Map<Seq<char>, Seq<char>>,
) -> Option<Map<Seq<char>, Seq<char>>>
    decreases segs.len(),
{
    if segs.len() == 0 {
        if parts.len() == 0 {
            Some(acc)
        } else {
            None
        }
    } else {
        match segs[0] {
            SegmentModel::Static(expected) => if parts.len() > 0 && parts[0] == expected {
                match_segments(segs.drop_first(), parts.drop_first(), acc)
            } else {
                None
            },
            SegmentModel::Param(name) => if parts.len() > 0 {
                match_segments(segs.drop_first(), parts.drop_first(), acc.insert(name, parts[0]))
            } else {
                None
            },
            SegmentModel::Wildcard => Some(acc.insert(seq!['*'], join_with(parts, '/'))),
        }
    }
}

/// The parameters a request `path` yields against `segs`, or `None` when it
/// does not match.
pub open spec fn match_spec(segs: Seq<SegmentModel>, path: Seq<char>) -> Option<
    Map<Seq<char>, Seq<char>>,
> {
    match_segments(segs, request_parts(path), Map::empty())
}

/// A segment is a literal.
pub open spec fn is_static_segment(s: SegmentModel) -> bool {
    s is Static
}

/// Every segment is a literal.
pub open spec fn all_static(segs: Seq<SegmentModel>) -> bool {
    forall|i: int| 0 <= i < segs.len() ==> is_static_segment(#[trigger] segs[i])
}

/// Literal segments, each equal to its component, match and capture nothing.
pub proof fn lemma_static_segments_match(
    segs: Seq<SegmentModel>,
    parts: Seq<Seq<char>>,
    acc: Map<Seq<char>, Seq<char>>,
)
    requires
        segs.len() == parts.len(),
        forall|i: int| 0 <= i < segs.len() ==> #[trigger] segs[i] == SegmentModel::Static(parts[i]),
    ensures
        match_segments(segs, parts, acc) == Some(acc),
    decreases segs.len(),
{
    if segs.len() > 0 {
        assert(segs[0] == SegmentModel::Static(parts[0]));
        let s2 = segs.drop_first();
        let p2 = parts.drop_first();
        assert forall|i: int| 0 <= i < s2.len() implies #[trigger] s2[i] == SegmentModel::Static(
            p2[i],
        ) by {
            assert(s2[i] == segs[i + 1]);
        }
        lemma_static_segments_match(s2, p2, acc);
    }
}

/// The segments of a fully static path are its components, as literals.
pub proof fn lemma_static_parse(path: Seq<char>)
    requires
        all_static(parse_segments(path)),
    ensures
        parse_segments(path).len() == components(trim_leading(path, '/')).len(),
        forall|i: int|
            0 <= i < parse_segments(path).len() ==> #[trigger] parse_segments(path)[i]
                == SegmentModel::Static(components(trim_leading(path, '/'))[i]),
{
    let cs = components(trim_leading(path, '/'));
    assert forall|i: int| 0 <= i < parse_segments(path).len() implies #[trigger] parse_segments(
        path,
    )[i] == SegmentModel::Static(cs[i]) by {
        assert(parse_segments(path)[i] == segment_of(cs[i]));
        assert(is_static_segment(parse_segments(path)[i]));
    }
}

/// The components a request path is matched on, when the path has no query
/// string, are the components of the path itself.
pub proof fn lemma_request_parts_plain(path: Seq<char>)
    requires
        forall|j: int| 0 <= j < path.len() ==> path[j] != '?',
    ensures
        request_parts(path) == components(path),
        request_parts(path) == components(trim_leading(path, '/')),
{
    lemma_before_first_trim(path);
    lemma_before_first_absent(path, '?');
    lemma_components_trim(path);
}

/// A fully static pattern matches the path it was parsed from, capturing no
/// parameter (for a path without a query string).
pub proof fn law_static_pattern_matches_own_path(path: Seq<char>)
    requires
        all_static(parse_segments(path)),
        forall|j: int| 0 <= j < path.len() ==> path[j] != '?',
    ensures
        match_spec(parse_segments(path), path) == Some(Map::<Seq<char>, Seq<char>>::empty()),
{
    lemma_request_parts_plain(path);
    lemma_static_parse(path);
    lemma_static_segments_match(
        parse_segments(path),
        components(trim_leading(path, '/')),
        Map::empty(),
    );
}

/// A query string appended to a request path does not change whether or how
/// it matches.
pub proof fn law_query_string_ignored(segs: Seq<SegmentModel>, path: Seq<char>, query: Seq<char>)
    requires
        forall|j: int| 0 <= j < path.len() ==> path[j] != '?',
    ensures
        match_spec(segs, path + seq!['?'] + query) == match_spec(segs, path),
{
    let full = path + seq!['?'] + query;
    assert forall|j: int| 0 <= j < path.len() implies full[j] != '?' by {
        assert(full[j] == path[j]);
    }
    crate::text::lemma_split_once_at(full, '?', path.len() as int);
    assert(full.take(path.len() as int) =~= path);
    lemma_before_first_trim(full);
    lemma_before_first_trim(path);
    lemma_before_first_absent(path, '?');
}

/// Leading slashes on a request path do not change whether or how it matches.
pub proof fn law_leading_slash_ignored(segs: Seq<SegmentModel>, path: Seq<char>)
    ensures
        match_spec(segs, seq!['/'] + path) == match_spec(segs, path),
{
    assert((seq!['/'] + path).drop_first() =~= path);
    assert(trim_leading(seq!['/'] + path, '/') == trim_leading(path, '/'));
}

/// A trailing slash on a request path (without query string) does not change
/// whether or how it matches.
pub proof fn law_trailing_slash_ignored(segs: Seq<SegmentModel>, path: Seq<char>)
    requires
        forall|j: int| 0 <= j < path.len() ==> path[j] != '?',
    ensures
        match_spec(segs, path + seq!['/']) == match_spec(segs, path),
{
    let p2 = path + seq!['/'];
    assert forall|j: int| 0 <= j < p2.len() implies p2[j] != '?' by {
        if j < path.len() {
            assert(p2[j] == path[j]);
        }
    }
    lemma_request_parts_plain(path);
    lemma_request_parts_plain(p2);
    lemma_components_trailing_slash(path);
}

/// The text a segment is written as in a pattern: a literal as itself, a
/// parameter as `:name`, the wildcard as `*`.
pub open spec fn segment_text(s: SegmentModel) -> Seq<char> {
    match s {
        SegmentModel::Static(x) => x,
        SegmentModel::Param(n) => seq![':'] + n,
        SegmentModel::Wildcard => seq!['*'],
    }
}

/// The pattern string written for `segs`: a `/`, then the segments' texts
/// joined by `/`.
pub open spec fn pattern_text(segs: Seq<SegmentModel>) -> Seq<char> {
    seq!['/'] + join_with(segs.map_values(|s: SegmentModel| segment_text(s)), '/')
}

/// A segment that reads back as itself from its text: a non-empty literal
/// without `/` or `?`, not starting with `:` and other than `*`; or a
/// parameter whose name has no `/`.
pub open spec fn plain_segment(s: SegmentModel) -> bool {
    match s {
        SegmentModel::Static(x) => x.len() > 0 && lacks(x, '/') && lacks(x, '?')
            && !starts_with_char(x, ':') && x != seq!['*'],
        SegmentModel::Param(n) => lacks(n, '/'),
        SegmentModel::Wildcard => false,
    }
}

/// `vals` fills `segs`: one non-empty component without `/` or `?` per
/// segment, equal to the literal wherever the segment is one.
pub open spec fn fills(segs: Seq<SegmentModel>, vals: Seq<Seq<char>>) -> bool {
    &&& segs.len() == vals.len()
    &&& forall|i: int|
        0 <= i < vals.len() ==> (#[trigger] vals[i]).len() > 0 && lacks(vals[i], '/') && lacks(
            vals[i],
            '?',
        )
    &&& forall|i: int|
        0 <= i < segs.len() ==> (#[trigger] segs[i] matches SegmentModel::Static(x) ==> vals[i]
            == x)
}

/// Some segment of `segs` is the parameter `k`.
pub open spec fn has_param(segs: Seq<SegmentModel>, k: Seq<char>) -> bool {
    exists|i: int| 0 <= i < segs.len() && segs[i] == SegmentModel::Param(k)
}

/// The name of a parameter segment.
pub open spec fn param_name(s: SegmentModel) -> Seq<char> {
    match s {
        SegmentModel::Param(n) => n,
        _ => Seq::empty(),
    }
}

/// No parameter name occurs twice.
pub open spec fn distinct_params(segs: Seq<SegmentModel>) -> bool {
    forall|i: int, j: int|
        0 <= i < j < segs.len() && #[trigger] segs[i] is Param && #[trigger] segs[j] is Param
            ==> param_name(segs[i]) != param_name(segs[j])
}

proof fn lemma_has_param_rest(segs: Seq<SegmentModel>, k: Seq<char>)
    requires
        segs.len() > 0,
    ensures
        has_param(segs, k) <==> (segs[0] == SegmentModel::Param(k) || has_param(
            segs.drop_first(),
            k,
        )),
{
    let t = segs.drop_first();
    if has_param(segs, k) {
        let i = choose|i: int| 0 <= i < segs.len() && segs[i] == SegmentModel::Param(k);
        if i > 0 {
            assert(t[i - 1] == segs[i]);
        }
    }
    if has_param(t, k) {
        let i = choose|i: int| 0 <= i < t.len() && t[i] == SegmentModel::Param(k);
        assert(segs[i + 1] == t[i]);
    }
}

/// Matching plain segments against components that fill them succeeds: the
/// keys are those of `acc` and the parameter names, a parameter not named
/// again later captures its own component, and other keys keep their value.
proof fn lemma_match_filled(
    segs: Seq<SegmentModel>,
    vals: Seq<Seq<char>>,
    acc: Map<Seq<char>, Seq<char>>,
)
    requires
        forall|i: int| 0 <= i < segs.len() ==> plain_segment(#[trigger] segs[i]),
        fills(segs, vals),
    ensures
        match_segments(segs, vals, acc) is Some,
        forall|k: Seq<char>|
            #[trigger] match_segments(segs, vals, acc).unwrap().contains_key(k) <==> (
            acc.contains_key(k) || has_param(segs, k)),
        forall|k: Seq<char>|
            !has_param(segs, k) ==> #[trigger] match_segments(segs, vals, acc).unwrap()[k]
                == acc[k],
        forall|i: int|
            0 <= i < segs.len() && #[trigger] segs[i] is Param && !has_param(
                segs.skip(i + 1),
                param_name(segs[i]),
            ) ==> match_segments(segs, vals, acc).unwrap()[param_name(segs[i])] == vals[i],
    decreases segs.len(),
{
    if segs.len() == 0 {
        assert forall|k: Seq<char>| !has_param(segs, k) by {}
    } else {
        let rs = segs.drop_first();
        let rv = vals.drop_first();
        assert(plain_segment(segs[0]));
        assert forall|i: int| 0 <= i < rs.len() implies plain_segment(#[trigger] rs[i]) by {
            assert(rs[i] == segs[i + 1]);
        }
        assert forall|i: int| 0 <= i < rv.len() implies (#[trigger] rv[i]).len() > 0 && lacks(
            rv[i],
            '/',
        ) && lacks(rv[i], '?') by {
            assert(rv[i] == vals[i + 1]);
        }
        assert forall|i: int| 0 <= i < rs.len() implies (#[trigger] rs[i] matches SegmentModel::Static(
            x,
        ) ==> rv[i] == x) by {
            assert(rs[i] == segs[i + 1]);
            assert(rv[i] == vals[i + 1]);
        }
        assert(vals.len() > 0);
        assert(vals[0].len() > 0);
        let acc2 = match segs[0] {
            SegmentModel::Param(n) => acc.insert(n, vals[0]),
            _ => acc,
        };
        lemma_match_filled(rs, rv, acc2);
        assert(match_segments(segs, vals, acc) == match_segments(rs, rv, acc2));
        let m = match_segments(rs, rv, acc2).unwrap();
        assert forall|k: Seq<char>|
            #[trigger] m.contains_key(k) <==> (acc.contains_key(k) || has_param(segs, k)) by {
            lemma_has_param_rest(segs, k);
        }
        assert forall|k: Seq<char>| !has_param(segs, k) implies #[trigger] m[k] == acc[k] by {
            lemma_has_param_rest(segs, k);
        }
        assert forall|i: int|
            0 <= i < segs.len() && #[trigger] segs[i] is Param && !has_param(
                segs.skip(i + 1),
                param_name(segs[i]),
            ) implies m[param_name(segs[i])] == vals[i] by {
            if i == 0 {
                assert(segs.skip(1) =~= rs);
            } else {
                assert(segs.skip(i + 1) =~= rs.skip(i));
                assert(rs[i - 1] == segs[i]);
                assert(rv[i - 1] == vals[i]);
            }
        }
    }
}

/// Parsing the pattern written for plain segments gives those segments back,
/// and a request path made of components that fill them matches, capturing
/// exactly one value per parameter: the component in its place.
pub proof fn law_parse_match_round_trip(segs: Seq<SegmentModel>, vals: Seq<Seq<char>>)
    requires
        forall|i: int| 0 <= i < segs.len() ==> plain_segment(#[trigger] segs[i]),
        distinct_params(segs),
        fills(segs, vals),
    ensures
        parse_segments(pattern_text(segs)) == segs,
        match_spec(parse_segments(pattern_text(segs)), seq!['/'] + join_with(vals, '/')) matches Some(
            m,
        ) && (forall|i: int|
            0 <= i < segs.len() && #[trigger] segs[i] is Param ==> m.contains_key(
                param_name(segs[i]),
            ) && m[param_name(segs[i])] == vals[i]) && (forall|k: Seq<char>|
            #[trigger] m.contains_key(k) ==> has_param(segs, k)),
{
    let texts = segs.map_values(|s: SegmentModel| segment_text(s));
    assert forall|i: int| 0 <= i < texts.len() implies (#[trigger] texts[i]).len() > 0 && lacks(
        texts[i],
        '/',
    ) by {
        assert(plain_segment(segs[i]));
        if let SegmentModel::Param(n) = segs[i] {
            let t = seq![':'] + n;
            assert forall|j: int| 0 <= j < t.len() implies t[j] != '/' by {
                if j > 0 {
                    assert(t[j] == n[j - 1]);
                }
            }
        }
    }
    let pat = pattern_text(segs);
    lemma_components_join(texts);
    crate::text::lemma_components_trim(pat);
    assert forall|i: int| 0 <= i < segs.len() implies segment_of(#[trigger] texts[i]) == segs[i] by {
        assert(plain_segment(segs[i]));
        if let SegmentModel::Param(n) = segs[i] {
            assert((seq![':'] + n).drop_first() =~= n);
        }
    }
    assert(parse_segments(pat) =~= segs);
    let path = seq!['/'] + join_with(vals, '/');
    assert forall|i: int| 0 <= i < vals.len() implies lacks(#[trigger] vals[i], '?') by {}
    lemma_join_lacks(vals, '/', '?');
    let j = join_with(vals, '/');
    assert forall|k: int| 0 <= k < path.len() implies path[k] != '?' by {
        if k > 0 {
            assert(path[k] == j[k - 1]);
        }
    }
    lemma_request_parts_plain(path);
    assert forall|i: int| 0 <= i < vals.len() implies (#[trigger] vals[i]).len() > 0 && lacks(
        vals[i],
        '/',
    ) by {}
    lemma_components_join(vals);
    lemma_match_filled(segs, vals, Map::empty());
    let m = match_segments(segs, vals, Map::empty()).unwrap();
    assert forall|i: int| 0 <= i < segs.len() && #[trigger] segs[i] is Param implies m.contains_key(
        param_name(segs[i]),
    ) && m[param_name(segs[i])] == vals[i] by {
        let n = param_name(segs[i]);
        assert(segs[i] == SegmentModel::Param(n));
        if has_param(segs.skip(i + 1), n) {
            let t = segs.skip(i + 1);
            let j2 = choose|j2: int| 0 <= j2 < t.len() && t[j2] == SegmentModel::Param(n);
            assert(segs[i + 1 + j2] == t[j2]);
            assert(segs[i + 1 + j2] is Param);
        }
    }
}

/// No segment before position `i` (inclusive) is the wildcard.
pub open spec fn no_wildcard_through(segs: Seq<SegmentModel>, i: int) -> bool {
    forall|j: int| 0 <= j <= i ==> !(#[trigger] segs[j] is Wildcard)
}

proof fn lemma_literals_equal_components(
    segs: Seq<SegmentModel>,
    parts: Seq<Seq<char>>,
    acc: Map<Seq<char>, Seq<char>>,
    i: int,
)
    requires
        match_segments(segs, parts, acc) is Some,
        0 <= i < segs.len(),
        no_wildcard_through(segs, i),
    ensures
        segs[i] matches SegmentModel::Static(x) ==> i < parts.len() && parts[i] == x,
    decreases segs.len(),
{
    assert(!(segs[0] is Wildcard));
    if i > 0 {
        let rs = segs.drop_first();
        let rp = parts.drop_first();
        assert forall|j: int| 0 <= j <= i - 1 implies !(#[trigger] rs[j] is Wildcard) by {
            assert(rs[j] == segs[j + 1]);
        }
        let acc2 = match segs[0] {
            SegmentModel::Param(n) => acc.insert(n, parts[0]),
            _ => acc,
        };
        lemma_literals_equal_components(rs, rp, acc2, i - 1);
        assert(rs[i - 1] == segs[i]);
        if i - 1 < rp.len() {
            assert(rp[i - 1] == parts[i]);
        }
    }
}

/// Literal segments match by equality only: whenever a path matches a
/// pattern, every literal segment before any wildcard equals the request path
/// component in its place. So a path whose component differs from the literal
/// there (`/users` against `/user`) does not match.
pub proof fn law_literal_segments_match_exactly(segs: Seq<SegmentModel>, path: Seq<char>, i: int)
    requires
        0 <= i < segs.len(),
        no_wildcard_through(segs, i),
    ensures
        segs[i] matches SegmentModel::Static(x) ==> (match_spec(segs, path) is Some ==> (i
            < request_parts(path).len() && request_parts(path)[i] == x)),
        segs[i] matches SegmentModel::Static(x) ==> (i < request_parts(path).len()
            && request_parts(path)[i] != x ==> match_spec(segs, path) is None),
{
    if match_spec(segs, path) is Some {
        lemma_literals_equal_components(segs, request_parts(path), Map::empty(), i);
    }
}

fn segment_from_part(part: &String) -> (s: Segment)
    ensures
        s@ == segment_of(part@),
{
    let v = chars_of(part.as_str());
    if v.len() > 0 && v[0] == ':' {
        let name = string_of_range(&v, 1, v.len());
        assert(v@.subrange(1, v@.len() as int) =~= v@.drop_first());
        Segment::Param(name)
    } else if v.len() == 1 && v[0] == '*' {
        assert(v@ =~= seq!['*']);
        Segment::Wildcard
    } else {
        proof {
            if part@ == seq!['*'] {
                assert(v@[0] == '*');
            }
        }
        Segment::Static(part.clone())
    }
}

/// The first `n` characters of `v`.
fn take_chars(v: &Vec<char>, n: usize) -> (r: Vec<char>)
    requires
        n <= v@.len(),
    ensures
        r@ == v@.take(n as int),
{
    let mut r: Vec<char> = Vec::new();
    let mut i: usize = 0;
    while i < n
        invariant
            i <= n <= v@.len(),
            r@ == v@.take(i as int),
        decreases n - i,
    {
        r.push(v[i]);
        i = i + 1;
        assert(r@ =~= v@.take(i as int));
    }
    r
}

/// `parts[start..].join(sep)`.
fn join_from(parts: &Vec<String>, start: usize, sep: char) -> (r: String)
    requires
        start <= parts@.len(),
    ensures
        r@ == join_with(views(parts@).skip(start as int), sep),
{
    let ghost pv = views(parts@);
    let mut r = String::new();
    let mut k: usize = start;
    assert(pv.subrange(start as int, start as int) =~= Seq::<Seq<char>>::empty());
    while k < parts.len()
        invariant
            pv == views(parts@),
            start <= k <= parts@.len(),
            r@ == join_with(pv.subrange(start as int, k as int), sep),
        decreases parts@.len() - k,
    {
        let ghost prev = pv.subrange(start as int, k as int);
        let ghost next = pv.subrange(start as int, k + 1);
        assert(next.drop_last() =~= prev);
        assert(next.last() == parts@[k as int]@);
        if k > start {
            push_char(&mut r, sep);
        } else {
            assert(next =~= seq![parts@[k as int]@]);
        }
        r.append(parts[k].as_str());
        k = k + 1;
    }
    assert(pv.subrange(start as int, parts@.len() as int) =~= pv.skip(start as int));
    r
}

impl RoutePattern {
    /// The pattern's segments, viewed.
    pub open spec fn segs(&self) -> Seq<SegmentModel> {
        self.segments@.map_values(|s: Segment| s@)
    }

    /// Parse a route pattern string into segments
    ///
    /// # Examples
    /// - `/users` -> [Static("users")]
    /// - `/users/:id` -> [Static("users"), Param("id")]
    /// - `/static/*` -> [Static("static"), Wildcard]
    pub fn parse(path: &str) -> (p: Self)
        ensures
            p.segs() == parse_segments(path@),
            p.raw@ == path@,
    {
        let v = chars_of(path);
        let t = trim_leading_chars(&v, '/');
        let parts = components_of(&t);
        let mut segments: Vec<Segment> = Vec::new();
        let mut i: usize = 0;
        while i < parts.len()
            invariant
                i <= parts@.len(),
                parts@.len() == components(t@).len(),
                forall|k: int| 0 <= k < parts@.len() ==> #[trigger] parts@[k]@ == components(t@)[k],
                segments@.len() == i,
                forall|k: int| 0 <= k < i ==> #[trigger] segments@[k]@ == segment_of(components(t@)[k]),
            decreases parts@.len() - i,
        {
            let s = segment_from_part(&parts[i]);
            segments.push(s);
            i = i + 1;
        }
        let p = RoutePattern { segments, raw: path.to_owned() };
        assert(p.segs() =~= parse_segments(path@));
        p
    }

    /// Match a request path against this pattern
    ///
    /// Returns `Some(params)` if the path matches, with extracted parameters.
    /// Returns `None` if the path doesn't match.
    pub fn match_path(&self, path: &str) -> (r: Option<StringMap<String>>)
        ensures
            match match_spec(self.segs(), path@) {
                Some(m) => r matches Some(params) && params@ == m,
                None => r is None,
            },
    {
        let v = chars_of(path);
        let t = trim_leading_chars(&v, '/');
        let p = match find_char(&t, '?') {
            Some(i) => {
                proof {
                    lemma_split_once_at(t@, '?', i as int);
                }
                take_chars(&t, i)
            },
            None => {
                proof {
                    lemma_split_once_none(t@, '?');
                }
                t
            },
        };
        let parts = components_of(&p);
        let ghost pv = views(parts@);
        let ghost segs = self.segs();
        assert(pv =~= request_parts(path@));
        let mut params: StringMap<String> = StringMap::new();
        let mut path_idx: usize = 0;
        let mut k: usize = 0;
        assert(segs.skip(0) =~= segs);
        assert(pv.skip(0) =~= pv);
        while k < self.segments.len()
            invariant
                segs == self.segs(),
                pv == views(parts@),
                pv == request_parts(path@),
                k <= segs.len(),
                path_idx <= parts@.len(),
                match_spec(segs, path@) == match_segments(
                    segs.skip(k as int),
                    pv.skip(path_idx as int),
                    params@,
                ),
            decreases segs.len() - k,
        {
            let ghost rest_segs = segs.skip(k as int);
            let ghost rest_parts = pv.skip(path_idx as int);
            assert(rest_segs[0] == self.segments@[k as int]@);
            assert(rest_segs.drop_first() =~= segs.skip(k + 1));
            match &self.segments[k] {
                Segment::Static(expected) => {
                    if path_idx >= parts.len() {
                        return None;
                    }
                    assert(rest_parts[0] == parts@[path_idx as int]@);
                    if !(parts[path_idx] == *expected) {
                        return None;
                    }
                    assert(rest_parts.drop_first() =~= pv.skip(path_idx + 1));
                    path_idx = path_idx + 1;
                },
                Segment::Param(name) => {
                    if path_idx >= parts.len() {
                        return None;
                    }
                    assert(rest_parts[0] == parts@[path_idx as int]@);
                    assert(rest_parts.drop_first() =~= pv.skip(path_idx + 1));
                    params.insert(name.clone(), parts[path_idx].clone());
                    path_idx = path_idx + 1;
                },
                Segment::Wildcard => {
                    let rest = join_from(&parts, path_idx, '/');
                    let mut star = String::new();
                    push_char(&mut star, '*');
                    assert(star@ =~= seq!['*']);
                    params.insert(star, rest);
                    return Some(params);
                },
            }
            k = k + 1;
        }
        assert(segs.skip(k as int) =~= Seq::<SegmentModel>::empty());
        if path_idx == parts.len() {
            assert(pv.skip(path_idx as int) =~= Seq::<Seq<char>>::empty());
            Some(params)
        } else {
            None
        }
    }
}

} // verus!
