//! Character-level model of the string operations the router and the request
//! context rely on (`split`, `split_once`, `trim_start_matches`, `join`), with
//! executable counterparts proved against that model.
use vstd::prelude::*;

verus! {

// ---------------------------------------------------------------------------
// Specification
// ---------------------------------------------------------------------------

/// The pieces of `s` between occurrences of `sep`, as `str::split(sep)` yields
/// them: there is always at least one piece, and empty pieces are kept.
pub open spec fn split_on(s: Seq<char>, sep: char) -> Seq<Seq<char>>
    decreases s.len(),
{
    if s.len() == 0 {
        seq![Seq::<char>::empty()]
    } else {
        let rest = split_on(s.drop_first(), sep);
        if s[0] == sep {
            seq![Seq::<char>::empty()] + rest
        } else {
            rest.update(0, seq![s[0]] + rest[0])
        }
    }
}

/// `pieces` with `prefix` glued in front of the first piece.
pub open spec fn prepend_first(prefix: Seq<char>, pieces: Seq<Seq<char>>) -> Seq<Seq<char>> {
    pieces.update(0, prefix + pieces[0])
}

/// The non-empty pieces of `pieces`, in order.
pub open spec fn non_empty(pieces: Seq<Seq<char>>) -> Seq<Seq<char>>
    decreases pieces.len(),
{
    if pieces.len() == 0 {
        Seq::empty()
    } else if pieces[0].len() == 0 {
        non_empty(pieces.drop_first())
    } else {
        seq![pieces[0]] + non_empty(pieces.drop_first())
    }
}

/// The `/`-separated components of a path: `split('/')` with empty pieces dropped.
pub open spec fn components(s: Seq<char>) -> Seq<Seq<char>> {
    non_empty(split_on(s, '/'))
}

/// `s` with every leading `c` removed (`str::trim_start_matches(c)`).
pub open spec fn trim_leading(s: Seq<char>, c: char) -> Seq<char>
    decreases s.len(),
{
    if s.len() > 0 && s[0] == c {
        trim_leading(s.drop_first(), c)
    } else {
        s
    }
}

/// `str::split_once(c)`: the text before and after the first `c`, if any.
pub open spec fn split_once(s: Seq<char>, c: char) -> Option<(Seq<char>, Seq<char>)>
    decreases s.len(),
{
    if s.len() == 0 {
        None
    } else if s[0] == c {
        Some((Seq::empty(), s.drop_first()))
    } else {
        match split_once(s.drop_first(), c) {
            Some((a, b)) => Some((seq![s[0]] + a, b)),
            None => None,
        }
    }
}

/// The text before the first `c` (all of `s` when there is none): the first
/// piece of `s.split(c)`.
pub open spec fn before_first(s: Seq<char>, c: char) -> Seq<char> {
    match split_once(s, c) {
        Some((a, _)) => a,
        None => s,
    }
}

/// The pieces joined with `sep` between consecutive pieces (`[..].join(sep)`).
pub open spec fn join_with(pieces: Seq<Seq<char>>, sep: char) -> Seq<char>
    decreases pieces.len(),
{
    if pieces.len() == 0 {
        Seq::empty()
    } else if pieces.len() == 1 {
        pieces[0]
    } else {
        join_with(pieces.drop_last(), sep) + seq![sep] + pieces.last()
    }
}

/// The views of a sequence of strings.
pub open spec fn views(v: Seq<String>) -> Seq<Seq<char>> {
    v.map_values(|s: String| s@)
}

/// `s` starts with `c`.
pub open spec fn starts_with_char(s: Seq<char>, c: char) -> bool {
    s.len() > 0 && s[0] == c
}

/// `s` with a leading `/` added unless it already has one.
pub open spec fn with_leading_slash(s: Seq<char>) -> Seq<char> {
    if starts_with_char(s, '/') {
        s
    } else {
        seq!['/'] + s
    }
}

/// Unicode upper-casing of a string, as `str::to_uppercase` computes it.
pub uninterp spec fn str_to_uppercase(s: Seq<char>) -> Seq<char>;

/// Unicode lower-casing of a string, as `str::to_lowercase` computes it.
pub uninterp spec fn str_to_lowercase(s: Seq<char>) -> Seq<char>;

/// The text `String::from_utf8_lossy` makes of a byte string.
pub uninterp spec fn utf8_lossy(bytes: Seq<u8>) -> Seq<char>;

/// Value of one digit in base 16 (`char::to_digit(16)`).
pub open spec fn hex_digit_value(c: char) -> Option<nat> {
    if '0' <= c && c <= '9' {
        Some((c as nat - '0' as nat) as nat)
    } else if 'a' <= c && c <= 'f' {
        Some((c as nat - 'a' as nat + 10) as nat)
    } else if 'A' <= c && c <= 'F' {
        Some((c as nat - 'A' as nat + 10) as nat)
    } else {
        None
    }
}

/// Value of a string of base-16 digits, most significant first.
pub open spec fn hex_digits_value(s: Seq<char>) -> Option<nat>
    decreases s.len(),
{
    if s.len() == 0 {
        Some(0)
    } else {
        match (hex_digits_value(s.drop_last()), hex_digit_value(s.last())) {
            (Some(v), Some(d)) => Some(v * 16 + d),
            _ => None,
        }
    }
}

/// `u8::from_str_radix(s, 16)`, as documented: an optional `+` followed by at
/// least one base-16 digit, whose value fits in a `u8`.
pub open spec fn parse_hex_u8(s: Seq<char>) -> Option<u8> {
    let digits = if starts_with_char(s, '+') { s.drop_first() } else { s };
    if digits.len() == 0 {
        None
    } else {
        match hex_digits_value(digits) {
            Some(v) => if v <= 255 { Some(v as u8) } else { None },
            None => None,
        }
    }
}

/// The base-16 digits in order of value, lower case.
pub open spec fn lower_hex_digits() -> Seq<char> {
    seq!['0', '1', '2', '3', '4', '5', '6', '7', '8', '9', 'a', 'b', 'c', 'd', 'e', 'f']
}

/// The base-16 digits in order of value, upper case.
pub open spec fn upper_hex_digits() -> Seq<char> {
    seq!['0', '1', '2', '3', '4', '5', '6', '7', '8', '9', 'A', 'B', 'C', 'D', 'E', 'F']
}

/// The digit model agrees with base 16: the `d`-th digit, in either case, has
/// value `d`, and no other character is a digit.
pub proof fn law_hex_digits_base_16(c: char)
    ensures
        forall|d: int|
            0 <= d < 16 ==> hex_digit_value(#[trigger] lower_hex_digits()[d]) == Some(d as nat)
                && hex_digit_value(upper_hex_digits()[d]) == Some(d as nat),
        hex_digit_value(c) is Some <==> lower_hex_digits().contains(c)
            || upper_hex_digits().contains(c),
{
    let lo = lower_hex_digits();
    let up = upper_hex_digits();
    if hex_digit_value(c) is Some {
        if '0' <= c && c <= '9' {
            assert(lo[(c as u32 - 48) as int] == c);
        } else if 'a' <= c && c <= 'f' {
            assert(lo[(c as u32 - 87) as int] == c);
        } else {
            assert(up[(c as u32 - 55) as int] == c);
        }
    }
}

/// Two base-16 digits, most significant first, parse to `16 * hi + lo`.
pub proof fn lemma_two_hex_digits(a: char, b: char, hi: nat, lo: nat)
    requires
        hex_digit_value(a) == Some(hi),
        hex_digit_value(b) == Some(lo),
    ensures
        parse_hex_u8(seq![a, b]) == Some((16 * hi + lo) as u8),
        16 * hi + lo < 256,
{
    let s = seq![a, b];
    assert(!starts_with_char(s, '+'));
    assert(s.drop_last() =~= seq![a]);
    assert(seq![a].drop_last() =~= Seq::<char>::empty());
    assert(hex_digits_value(Seq::<char>::empty()) == Some(0nat));
    assert(seq![a].last() == a);
    assert(hex_digits_value(seq![a]) == Some(hi));
    assert(s.last() == b);
}

// ---------------------------------------------------------------------------
// Lemmas
// ---------------------------------------------------------------------------

pub proof fn lemma_split_nonempty(s: Seq<char>, sep: char)
    ensures
        split_on(s, sep).len() >= 1,
    decreases s.len(),
{
    if s.len() > 0 {
        lemma_split_nonempty(s.drop_first(), sep);
    }
}

pub proof fn lemma_prepend_empty(pieces: Seq<Seq<char>>)
    requires
        pieces.len() >= 1,
    ensures
        prepend_first(Seq::empty(), pieces) == pieces,
{
    assert(Seq::<char>::empty() + pieces[0] =~= pieces[0]);
    assert(prepend_first(Seq::empty(), pieces) =~= pieces);
}

/// Splitting `s` left to right: after the first `i` characters, the pieces
/// completed so far, then the open piece `cur` glued to the pieces of the rest.
pub proof fn lemma_split_step(s: Seq<char>, sep: char, i: int, done: Seq<Seq<char>>, cur: Seq<char>)
    requires
        0 <= i < s.len(),
        split_on(s, sep) == done + prepend_first(cur, split_on(s.skip(i), sep)),
    ensures
        s[i] == sep ==> split_on(s, sep) == done.push(cur) + prepend_first(
            Seq::empty(),
            split_on(s.skip(i + 1), sep),
        ),
        s[i] != sep ==> split_on(s, sep) == done + prepend_first(
            cur.push(s[i]),
            split_on(s.skip(i + 1), sep),
        ),
{
    let t = s.skip(i);
    assert(t.drop_first() =~= s.skip(i + 1));
    assert(t[0] == s[i]);
    let rest = split_on(s.skip(i + 1), sep);
    lemma_split_nonempty(s.skip(i + 1), sep);
    if s[i] == sep {
        assert(split_on(t, sep) == seq![Seq::<char>::empty()] + rest);
        lemma_prepend_empty(rest);
        assert(prepend_first(cur, split_on(t, sep)) =~= seq![cur] + rest);
        assert(done + (seq![cur] + rest) =~= done.push(cur) + rest);
    } else {
        assert(split_on(t, sep) == rest.update(0, seq![s[i]] + rest[0]));
        assert(cur + (seq![s[i]] + rest[0]) =~= cur.push(s[i]) + rest[0]);
        assert(prepend_first(cur, split_on(t, sep)) =~= prepend_first(cur.push(s[i]), rest));
    }
}

pub proof fn lemma_non_empty_append(a: Seq<Seq<char>>, b: Seq<Seq<char>>)
    ensures
        non_empty(a + b) == non_empty(a) + non_empty(b),
    decreases a.len(),
{
    if a.len() == 0 {
        assert(a + b =~= b);
        assert(Seq::<Seq<char>>::empty() + non_empty(b) =~= non_empty(b));
    } else {
        assert((a + b).drop_first() =~= a.drop_first() + b);
        assert((a + b)[0] == a[0]);
        lemma_non_empty_append(a.drop_first(), b);
        if a[0].len() != 0 {
            assert(seq![a[0]] + (non_empty(a.drop_first()) + non_empty(b)) =~= (seq![a[0]]
                + non_empty(a.drop_first())) + non_empty(b));
        }
    }
}

pub proof fn lemma_non_empty_single(p: Seq<char>)
    ensures
        non_empty(seq![p]) == (if p.len() == 0 { Seq::<Seq<char>>::empty() } else { seq![p] }),
{
    assert(seq![p].drop_first() =~= Seq::<Seq<char>>::empty());
    assert(non_empty(seq![p].drop_first()) == Seq::<Seq<char>>::empty());
    if p.len() != 0 {
        assert(seq![p] + Seq::<Seq<char>>::empty() =~= seq![p]);
    }
}

/// The characters of `s` before index `i` when `i` is the first occurrence of `c`.
pub proof fn lemma_split_once_at(s: Seq<char>, c: char, i: int)
    requires
        0 <= i < s.len(),
        s[i] == c,
        forall|j: int| 0 <= j < i ==> s[j] != c,
    ensures
        split_once(s, c) == Some((s.take(i), s.skip(i + 1))),
    decreases i,
{
    if i == 0 {
        assert(s.take(0) =~= Seq::<char>::empty());
        assert(s.skip(1) =~= s.drop_first());
    } else {
        let t = s.drop_first();
        assert forall|j: int| 0 <= j < i - 1 implies t[j] != c by {
            assert(t[j] == s[j + 1]);
        }
        lemma_split_once_at(t, c, i - 1);
        assert(seq![s[0]] + t.take(i - 1) =~= s.take(i));
        assert(t.skip(i) =~= s.skip(i + 1));
    }
}

pub proof fn lemma_split_once_none(s: Seq<char>, c: char)
    requires
        forall|j: int| 0 <= j < s.len() ==> s[j] != c,
    ensures
        split_once(s, c) is None,
    decreases s.len(),
{
    if s.len() > 0 {
        let t = s.drop_first();
        assert forall|j: int| 0 <= j < t.len() implies t[j] != c by {
            assert(t[j] == s[j + 1]);
        }
        lemma_split_once_none(t, c);
    }
}

/// A leading separator only adds an empty first piece.
pub proof fn lemma_components_leading_slash(x: Seq<char>)
    ensures
        components(seq!['/'] + x) == components(x),
{
    let s = seq!['/'] + x;
    assert(s.drop_first() =~= x);
    let rest = split_on(x, '/');
    assert(split_on(s, '/') == seq![Seq::<char>::empty()] + rest);
    assert((seq![Seq::<char>::empty()] + rest).drop_first() =~= rest);
}

pub proof fn lemma_components_with_leading_slash(x: Seq<char>)
    ensures
        components(with_leading_slash(x)) == components(x),
{
    if !starts_with_char(x, '/') {
        lemma_components_leading_slash(x);
    }
}

/// Leading slashes do not change the components of a path.
pub proof fn lemma_components_trim(x: Seq<char>)
    ensures
        components(trim_leading(x, '/')) == components(x),
    decreases x.len(),
{
    if x.len() > 0 && x[0] == '/' {
        lemma_components_trim(x.drop_first());
        assert(seq!['/'] + x.drop_first() =~= x);
        lemma_components_leading_slash(x.drop_first());
    }
}

pub proof fn lemma_before_first_cons(p: Seq<char>, c: char)
    requires
        p.len() > 0,
        p[0] != c,
    ensures
        before_first(p, c) == seq![p[0]] + before_first(p.drop_first(), c),
{
    if split_once(p.drop_first(), c) is None {
        assert(seq![p[0]] + p.drop_first() =~= p);
    }
}

/// Text without `c` is its own first piece.
pub proof fn lemma_before_first_absent(s: Seq<char>, c: char)
    requires
        forall|j: int| 0 <= j < s.len() ==> s[j] != c,
    ensures
        before_first(s, c) == s,
{
    lemma_split_once_none(s, c);
}

/// Removing leading slashes and cutting at the first `?` commute.
pub proof fn lemma_before_first_trim(p: Seq<char>)
    ensures
        before_first(trim_leading(p, '/'), '?') == trim_leading(before_first(p, '?'), '/'),
    decreases p.len(),
{
    if p.len() == 0 {
        lemma_split_once_none(p, '?');
    } else if p[0] == '/' {
        lemma_before_first_trim(p.drop_first());
        lemma_before_first_cons(p, '?');
        let b = before_first(p.drop_first(), '?');
        assert((seq!['/'] + b).drop_first() =~= b);
    } else if p[0] == '?' {
        assert(before_first(p, '?') == Seq::<char>::empty());
    } else {
        lemma_before_first_cons(p, '?');
    }
}

/// Two keys `a b` and `c d` joined by a space are equal only part by part,
/// when neither `a` nor `c` holds a space.
pub proof fn lemma_key_parts(a: Seq<char>, b: Seq<char>, c: Seq<char>, d: Seq<char>)
    requires
        forall|i: int| 0 <= i < a.len() ==> a[i] != ' ',
        forall|i: int| 0 <= i < c.len() ==> c[i] != ' ',
        a + seq![' '] + b == c + seq![' '] + d,
    ensures
        a == c,
        b == d,
{
    let k1 = a + seq![' '] + b;
    let k2 = c + seq![' '] + d;
    if a.len() < c.len() {
        assert(k1[a.len() as int] == ' ');
        assert(k2[a.len() as int] == c[a.len() as int]);
    } else if c.len() < a.len() {
        assert(k2[c.len() as int] == ' ');
        assert(k1[c.len() as int] == a[c.len() as int]);
    }
    assert(a.len() == c.len());
    assert(k1.len() == a.len() + 1 + b.len());
    assert(k2.len() == c.len() + 1 + d.len());
    assert(k1.len() == k2.len());
    assert forall|i: int| 0 <= i < a.len() implies a[i] == c[i] by {
        assert(k1[i] == a[i]);
        assert(k2[i] == c[i]);
    }
    assert(a =~= c);
    assert(b.len() == d.len());
    assert forall|i: int| 0 <= i < b.len() implies b[i] == d[i] by {
        assert(k1[a.len() + 1 + i] == b[i]);
        assert(k2[c.len() + 1 + i] == d[i]);
    }
    assert(b =~= d);
}

/// A trailing separator only adds an empty last piece.
pub proof fn lemma_split_trailing_sep(x: Seq<char>, c: char)
    ensures
        split_on(x + seq![c], c) == split_on(x, c).push(Seq::empty()),
    decreases x.len(),
{
    let s = x + seq![c];
    if x.len() == 0 {
        assert(s =~= seq![c]);
        assert(s.drop_first() =~= Seq::<char>::empty());
        assert(split_on(s.drop_first(), c) == seq![Seq::<char>::empty()]);
        assert(split_on(x, c) == seq![Seq::<char>::empty()]);
        assert(split_on(s, c) == seq![Seq::<char>::empty()] + split_on(s.drop_first(), c));
        assert(seq![Seq::<char>::empty()] + seq![Seq::<char>::empty()] =~= seq![
            Seq::<char>::empty(),
        ].push(Seq::<char>::empty()));
    } else {
        assert(s.drop_first() =~= x.drop_first() + seq![c]);
        assert(s[0] == x[0]);
        lemma_split_trailing_sep(x.drop_first(), c);
        lemma_split_nonempty(x.drop_first(), c);
        let r = split_on(x.drop_first(), c);
        if x[0] == c {
            assert(seq![Seq::<char>::empty()] + r.push(Seq::<char>::empty()) =~= (seq![
                Seq::<char>::empty(),
            ] + r).push(Seq::<char>::empty()));
        } else {
            assert(r.push(Seq::<char>::empty()).update(0, seq![x[0]] + r[0]) =~= r.update(
                0,
                seq![x[0]] + r[0],
            ).push(Seq::<char>::empty()));
        }
    }
}

/// A trailing slash does not change the components of a path.
pub proof fn lemma_components_trailing_slash(x: Seq<char>)
    ensures
        components(x + seq!['/']) == components(x),
{
    lemma_split_trailing_sep(x, '/');
    let ps = split_on(x, '/');
    assert(ps.push(Seq::<char>::empty()) =~= ps + seq![Seq::<char>::empty()]);
    lemma_non_empty_append(ps, seq![Seq::<char>::empty()]);
    lemma_non_empty_single(Seq::<char>::empty());
    assert(non_empty(ps) + Seq::<Seq<char>>::empty() =~= non_empty(ps));
}

/// `split_once` cuts `s` around the `c` it finds.
pub proof fn lemma_split_once_parts(s: Seq<char>, c: char)
    ensures
        split_once(s, c) matches Some((a, b)) ==> s == a + seq![c] + b,
    decreases s.len(),
{
    if s.len() > 0 {
        lemma_split_once_parts(s.drop_first(), c);
        if s[0] == c {
            assert(s =~= Seq::<char>::empty() + seq![c] + s.drop_first());
        } else if let Some((a, b)) = split_once(s.drop_first(), c) {
            assert(s.drop_first() == a + seq![c] + b);
            assert(s =~= seq![s[0]] + s.drop_first());
            assert(s =~= (seq![s[0]] + a) + seq![c] + b);
        }
    }
}

/// `c` does not occur in `s`.
pub open spec fn lacks(s: Seq<char>, c: char) -> bool {
    forall|j: int| 0 <= j < s.len() ==> s[j] != c
}

/// Text without the separator is a single piece.
pub proof fn lemma_split_without_sep(s: Seq<char>, c: char)
    requires
        lacks(s, c),
    ensures
        split_on(s, c) == seq![s],
    decreases s.len(),
{
    if s.len() == 0 {
        assert(s =~= Seq::<char>::empty());
    } else {
        let t = s.drop_first();
        assert forall|j: int| 0 <= j < t.len() implies t[j] != c by {
            assert(t[j] == s[j + 1]);
        }
        lemma_split_without_sep(t, c);
        assert(s[0] != c);
        assert(seq![s[0]] + t =~= s);
        assert(seq![t].update(0, seq![s[0]] + t) =~= seq![s]);
    }
}

/// A separator between `a` and `b` ends the last piece of `a`.
pub proof fn lemma_split_concat(a: Seq<char>, b: Seq<char>, c: char)
    ensures
        split_on(a + seq![c] + b, c) == split_on(a, c) + split_on(b, c),
    decreases a.len(),
{
    let s = a + seq![c] + b;
    if a.len() == 0 {
        assert(s =~= seq![c] + b);
        assert(s.drop_first() =~= b);
        assert(seq![Seq::<char>::empty()] + split_on(b, c) == split_on(a, c) + split_on(b, c));
    } else {
        let a2 = a.drop_first();
        assert(s.drop_first() =~= a2 + seq![c] + b);
        assert(s[0] == a[0]);
        lemma_split_concat(a2, b, c);
        lemma_split_nonempty(a2, c);
        let ra = split_on(a2, c);
        let rb = split_on(b, c);
        if a[0] == c {
            assert(seq![Seq::<char>::empty()] + (ra + rb) =~= (seq![Seq::<char>::empty()] + ra)
                + rb);
        } else {
            assert((ra + rb).update(0, seq![a[0]] + (ra + rb)[0]) =~= ra.update(
                0,
                seq![a[0]] + ra[0],
            ) + rb);
        }
    }
}

/// Pieces without the separator, joined by it, split back into themselves.
pub proof fn lemma_split_join(ps: Seq<Seq<char>>, c: char)
    requires
        ps.len() >= 1,
        forall|i: int| 0 <= i < ps.len() ==> lacks(#[trigger] ps[i], c),
    ensures
        split_on(join_with(ps, c), c) == ps,
    decreases ps.len(),
{
    if ps.len() == 1 {
        lemma_split_without_sep(ps[0], c);
        assert(seq![ps[0]] =~= ps);
    } else {
        let init = ps.drop_last();
        assert forall|i: int| 0 <= i < init.len() implies lacks(#[trigger] init[i], c) by {
            assert(init[i] == ps[i]);
        }
        lemma_split_join(init, c);
        assert(lacks(ps[ps.len() - 1], c));
        lemma_split_without_sep(ps.last(), c);
        lemma_split_concat(join_with(init, c), ps.last(), c);
        assert(init + seq![ps.last()] =~= ps);
    }
}

/// Dropping empty pieces leaves non-empty pieces as they are.
pub proof fn lemma_non_empty_id(ps: Seq<Seq<char>>)
    requires
        forall|i: int| 0 <= i < ps.len() ==> (#[trigger] ps[i]).len() > 0,
    ensures
        non_empty(ps) == ps,
    decreases ps.len(),
{
    if ps.len() > 0 {
        let t = ps.drop_first();
        assert forall|i: int| 0 <= i < t.len() implies (#[trigger] t[i]).len() > 0 by {
            assert(t[i] == ps[i + 1]);
        }
        lemma_non_empty_id(t);
        assert(ps[0].len() > 0);
        assert(seq![ps[0]] + t =~= ps);
    }
}

/// Non-empty pieces without `/`, joined by `/` behind a leading `/`, are the
/// components of the resulting path.
pub proof fn lemma_components_join(ps: Seq<Seq<char>>)
    requires
        forall|i: int| 0 <= i < ps.len() ==> (#[trigger] ps[i]).len() > 0 && lacks(ps[i], '/'),
    ensures
        components(seq!['/'] + join_with(ps, '/')) == ps,
{
    lemma_components_leading_slash(join_with(ps, '/'));
    if ps.len() == 0 {
        lemma_non_empty_single(Seq::<char>::empty());
        assert(split_on(Seq::<char>::empty(), '/') == seq![Seq::<char>::empty()]);
        assert(ps =~= Seq::<Seq<char>>::empty());
    } else {
        assert forall|i: int| 0 <= i < ps.len() implies lacks(#[trigger] ps[i], '/') by {}
        lemma_split_join(ps, '/');
        lemma_non_empty_id(ps);
    }
}

/// A character absent from every piece and from the separator is absent from
/// the joined text.
pub proof fn lemma_join_lacks(ps: Seq<Seq<char>>, sep: char, c: char)
    requires
        sep != c,
        forall|i: int| 0 <= i < ps.len() ==> lacks(#[trigger] ps[i], c),
    ensures
        lacks(join_with(ps, sep), c),
    decreases ps.len(),
{
    if ps.len() == 1 {
        assert(lacks(ps[0], c));
    } else if ps.len() > 1 {
        let init = ps.drop_last();
        assert forall|i: int| 0 <= i < init.len() implies lacks(#[trigger] init[i], c) by {
            assert(init[i] == ps[i]);
        }
        lemma_join_lacks(init, sep, c);
        assert(lacks(ps[ps.len() - 1], c));
        let j = join_with(init, sep);
        let whole = j + seq![sep] + ps.last();
        assert forall|k: int| 0 <= k < whole.len() implies whole[k] != c by {
            if k < j.len() {
                assert(whole[k] == j[k]);
            } else if k == j.len() {
                assert(whole[k] == sep);
            } else {
                assert(whole[k] == ps.last()[k - j.len() - 1]);
            }
        }
    }
}

// ---------------------------------------------------------------------------
// Executable helpers
// ---------------------------------------------------------------------------

/// `String::push`: appends one character.
#[verifier::external_body]
pub(crate) fn push_char(s: &mut String, c: char)
    ensures
        final(s)@ == old(s)@.push(c),
{
    s.push(c);
}

/// `str::to_uppercase`.
#[verifier::external_body]
pub(crate) fn to_uppercase(s: &str) -> (r: String)
    ensures
        r@ == str_to_uppercase(s@),
{
    s.to_uppercase()
}

/// `str::to_lowercase`.
#[verifier::external_body]
pub(crate) fn to_lowercase(s: &str) -> (r: String)
    ensures
        r@ == str_to_lowercase(s@),
{
    s.to_lowercase()
}

/// `String::from_utf8_lossy`, made owned. Valid UTF-8 comes back decoded unchanged.
#[verifier::external_body]
pub(crate) fn from_utf8_lossy(bytes: &[u8]) -> (r: String)
    ensures
        r@ == utf8_lossy(bytes@),
        vstd::utf8::valid_utf8(bytes@) ==> r@ == vstd::utf8::decode_utf8(bytes@),
{
    String::from_utf8_lossy(bytes).to_string()
}

/// The value of one base-16 digit.
fn hex_digit(c: char) -> (r: Option<u32>)
    ensures
        match hex_digit_value(c) {
            Some(d) => r == Some(d as u32),
            None => r is None,
        },
{
    if '0' <= c && c <= '9' {
        Some((c as u32) - 48)
    } else if 'a' <= c && c <= 'f' {
        Some((c as u32) - 87)
    } else if 'A' <= c && c <= 'F' {
        Some((c as u32) - 55)
    } else {
        None
    }
}

/// `u8::from_str_radix(s, 16)`, with the error dropped: an optional `+`, then
/// base-16 digits whose value fits in a `u8`.
pub(crate) fn hex_to_u8(s: &str) -> (r: Option<u8>)
    ensures
        r == parse_hex_u8(s@),
{
    let v = chars_of(s);
    let start: usize = if v.len() > 0 && v[0] == '+' {
        1
    } else {
        0
    };
    let ghost digits = v@.skip(start as int);
    assert(digits =~= (if starts_with_char(s@, '+') { s@.drop_first() } else { s@ }));
    if start == v.len() {
        return None;
    }
    let mut valid = true;
    let mut over = false;
    let mut value: u32 = 0;
    let mut i: usize = start;
    assert(v@.subrange(start as int, start as int) =~= Seq::<char>::empty());
    while i < v.len()
        invariant
            start <= i <= v@.len(),
            value <= 255,
            ({
                let h = hex_digits_value(v@.subrange(start as int, i as int));
                &&& !valid ==> h is None
                &&& valid ==> h is Some
                &&& valid && !over ==> h == Some(value as nat)
                &&& valid && over ==> h.unwrap() > 255
            }),
        decreases v@.len() - i,
    {
        let ghost prev = v@.subrange(start as int, i as int);
        let ghost next = v@.subrange(start as int, i + 1);
        assert(next.drop_last() =~= prev);
        assert(next.last() == v@[i as int]);
        match hex_digit(v[i]) {
            None => {
                valid = false;
            },
            Some(d) => {
                if valid && !over {
                    let nv = value * 16 + d;
                    if nv > 255 {
                        over = true;
                    } else {
                        value = nv;
                    }
                }
            },
        }
        i = i + 1;
    }
    assert(v@.subrange(start as int, v@.len() as int) =~= digits);
    if !valid || over {
        None
    } else {
        Some(value as u8)
    }
}

/// The characters of `s`.
pub fn chars_of(s: &str) -> (v: Vec<char>)
    ensures
        v@ == s@,
{
    let n = s.unicode_len();
    let mut v: Vec<char> = Vec::new();
    let mut i: usize = 0;
    while i < n
        invariant
            n == s@.len(),
            i <= n,
            v@ == s@.take(i as int),
        decreases n - i,
    {
        let c = s.get_char(i);
        v.push(c);
        i = i + 1;
        assert(v@ =~= s@.take(i as int));
    }
    assert(v@ =~= s@);
    v
}

/// A `String` holding the characters `v[lo..hi]`.
pub fn string_of_range(v: &Vec<char>, lo: usize, hi: usize) -> (s: String)
    requires
        lo <= hi <= v@.len(),
    ensures
        s@ == v@.subrange(lo as int, hi as int),
{
    let mut s = String::new();
    let mut i: usize = lo;
    while i < hi
        invariant
            lo <= i <= hi <= v@.len(),
            s@ == v@.subrange(lo as int, i as int),
        decreases hi - i,
    {
        push_char(&mut s, v[i]);
        i = i + 1;
        assert(s@ =~= v@.subrange(lo as int, i as int));
    }
    s
}

/// A `String` holding the characters of `v`.
pub fn string_of(v: &Vec<char>) -> (s: String)
    ensures
        s@ == v@,
{
    let s = string_of_range(v, 0, v.len());
    assert(v@.subrange(0, v@.len() as int) =~= v@);
    s
}

/// `a` followed by `b`.
pub fn concat(a: &str, b: &str) -> (r: String)
    ensures
        r@ == a@ + b@,
{
    let mut r = a.to_owned();
    r.append(b);
    r
}

/// Whether `a` and `b` hold the same characters.
pub fn str_eq(a: &str, b: &str) -> (r: bool)
    ensures
        r == (a@ == b@),
{
    let x = chars_of(a);
    let y = chars_of(b);
    if x.len() != y.len() {
        return false;
    }
    let mut i: usize = 0;
    while i < x.len()
        invariant
            x@ == a@,
            y@ == b@,
            x@.len() == y@.len(),
            i <= x@.len(),
            forall|j: int| 0 <= j < i ==> x@[j] == y@[j],
        decreases x@.len() - i,
    {
        if x[i] != y[i] {
            assert(x@[i as int] != y@[i as int]);
            return false;
        }
        i = i + 1;
    }
    assert(x@ =~= y@);
    true
}

/// Index of the first `c` in `v`, if any.
pub fn find_char(v: &Vec<char>, c: char) -> (r: Option<usize>)
    ensures
        match r {
            Some(i) => i < v@.len() && v@[i as int] == c && forall|j: int|
                0 <= j < i ==> v@[j] != c,
            None => forall|j: int| 0 <= j < v@.len() ==> v@[j] != c,
        },
{
    let mut i: usize = 0;
    while i < v.len()
        invariant
            i <= v@.len(),
            forall|j: int| 0 <= j < i ==> v@[j] != c,
        decreases v@.len() - i,
    {
        if v[i] == c {
            return Some(i);
        }
        i = i + 1;
    }
    None
}

/// `s.split_once(c)`, as owned strings.
pub fn split_once_str(s: &str, c: char) -> (r: Option<(String, String)>)
    ensures
        match split_once(s@, c) {
            Some((a, b)) => r matches Some((x, y)) && x@ == a && y@ == b,
            None => r is None,
        },
{
    let v = chars_of(s);
    match find_char(&v, c) {
        Some(i) => {
            proof {
                lemma_split_once_at(v@, c, i as int);
            }
            let n = v.len();
            let a = string_of_range(&v, 0, i);
            let b = string_of_range(&v, i + 1, n);
            assert(v@.subrange(0, i as int) =~= v@.take(i as int));
            assert(v@.subrange(i + 1, v@.len() as int) =~= v@.skip(i + 1));
            Some((a, b))
        },
        None => {
            proof {
                lemma_split_once_none(v@, c);
            }
            None
        },
    }
}

/// The text before the first `c` (`s.split(c).next()`), as an owned string.
pub fn before_first_str(s: &str, c: char) -> (r: String)
    ensures
        r@ == before_first(s@, c),
{
    match split_once_str(s, c) {
        Some((a, _)) => a,
        None => s.to_owned(),
    }
}

/// `s` with every leading `c` removed, as characters.
pub fn trim_leading_chars(v: &Vec<char>, c: char) -> (r: Vec<char>)
    ensures
        r@ == trim_leading(v@, c),
{
    let mut i: usize = 0;
    assert(v@.skip(0) =~= v@);
    while i < v.len() && v[i] == c
        invariant
            i <= v@.len(),
            trim_leading(v@, c) == trim_leading(v@.skip(i as int), c),
        decreases v@.len() - i,
    {
        assert(v@.skip(i as int).drop_first() =~= v@.skip(i + 1));
        i = i + 1;
    }
    let mut r: Vec<char> = Vec::new();
    let mut k: usize = i;
    while k < v.len()
        invariant
            i <= k <= v@.len(),
            r@ == v@.subrange(i as int, k as int),
        decreases v@.len() - k,
    {
        r.push(v[k]);
        k = k + 1;
        assert(r@ =~= v@.subrange(i as int, k as int));
    }
    assert(r@ =~= v@.skip(i as int));
    r
}

/// `s` with a leading `/` added unless it already has one.
pub fn with_leading_slash_str(s: &str) -> (r: String)
    ensures
        r@ == with_leading_slash(s@),
{
    let v = chars_of(s);
    if v.len() > 0 && v[0] == '/' {
        s.to_owned()
    } else {
        let mut r = String::new();
        push_char(&mut r, '/');
        r.append(s);
        r
    }
}

/// `s.split(sep)`, as owned strings.
pub fn split_str(s: &str, sep: char) -> (r: Vec<String>)
    ensures
        views(r@) == split_on(s@, sep),
{
    let v = chars_of(s);
    let ghost t = v@;
    let mut done: Vec<String> = Vec::new();
    let mut cur: Vec<char> = Vec::new();
    let mut i: usize = 0;
    proof {
        lemma_split_nonempty(t, sep);
        lemma_prepend_empty(split_on(t, sep));
        assert(t.skip(0) =~= t);
        assert(views(done@) + split_on(t, sep) =~= split_on(t, sep));
    }
    while i < v.len()
        invariant
            t == v@,
            i <= t.len(),
            split_on(t, sep) == views(done@) + prepend_first(cur@, split_on(t.skip(i as int), sep)),
        decreases t.len() - i,
    {
        proof {
            lemma_split_step(t, sep, i as int, views(done@), cur@);
        }
        if v[i] == sep {
            let ghost prev = views(done@);
            let piece = string_of(&cur);
            done.push(piece);
            assert(views(done@) =~= prev.push(cur@));
            cur = Vec::new();
            proof {
                lemma_split_nonempty(t.skip(i + 1), sep);
                lemma_prepend_empty(split_on(t.skip(i + 1), sep));
            }
        } else {
            cur.push(v[i]);
        }
        i = i + 1;
    }
    proof {
        assert(t.skip(t.len() as int) =~= Seq::<char>::empty());
        assert(prepend_first(cur@, seq![Seq::<char>::empty()]) =~= seq![cur@]);
    }
    let ghost prev = views(done@);
    let piece = string_of(&cur);
    done.push(piece);
    assert(views(done@) =~= prev.push(cur@));
    assert(views(done@) =~= split_on(t, sep));
    done
}

/// The `/`-separated components of the characters `v`, as strings.
pub fn components_of(v: &Vec<char>) -> (r: Vec<String>)
    ensures
        r@.len() == components(v@).len(),
        forall|k: int| 0 <= k < r@.len() ==> #[trigger] r@[k]@ == components(v@)[k],
{
    let ghost s = v@;
    let mut done: Vec<String> = Vec::new();
    let ghost mut all_done: Seq<Seq<char>> = Seq::empty();
    let mut cur: Vec<char> = Vec::new();
    let mut i: usize = 0;
    proof {
        lemma_split_nonempty(s, '/');
        lemma_prepend_empty(split_on(s, '/'));
        assert(s.skip(0) =~= s);
        assert(all_done + split_on(s, '/') =~= split_on(s, '/'));
    }
    while i < v.len()
        invariant
            s == v@,
            i <= s.len(),
            split_on(s, '/') == all_done + prepend_first(cur@, split_on(s.skip(i as int), '/')),
            done@.len() == non_empty(all_done).len(),
            forall|k: int| 0 <= k < done@.len() ==> #[trigger] done@[k]@ == non_empty(all_done)[k],
        decreases s.len() - i,
    {
        proof {
            lemma_split_step(s, '/', i as int, all_done, cur@);
        }
        if v[i] == '/' {
            proof {
                lemma_non_empty_append(all_done, seq![cur@]);
                lemma_non_empty_single(cur@);
                assert(all_done.push(cur@) =~= all_done + seq![cur@]);
                all_done = all_done.push(cur@);
            }
            if cur.len() > 0 {
                let piece = string_of(&cur);
                done.push(piece);
            }
            cur = Vec::new();
            assert(cur@ =~= Seq::<char>::empty());
        } else {
            cur.push(v[i]);
        }
        i = i + 1;
    }
    proof {
        assert(s.skip(s.len() as int) =~= Seq::<char>::empty());
        assert(split_on(Seq::<char>::empty(), '/') == seq![Seq::<char>::empty()]);
        assert(prepend_first(cur@, seq![Seq::<char>::empty()]) =~= seq![cur@]);
        lemma_non_empty_append(all_done, seq![cur@]);
        lemma_non_empty_single(cur@);
    }
    if cur.len() > 0 {
        let piece = string_of(&cur);
        done.push(piece);
    }
    done
}

} // verus!
