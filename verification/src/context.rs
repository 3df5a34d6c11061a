//! Request/Reply context objects
//!
//! Provides a unified context for both Fastify and Hono style request handling.
use crate::json::{entry_views, json_object, json_object_text, json_parses, parse_json_text, JsonError};
use crate::nanbox::TAG_UNDEFINED;
use crate::worker::{law_ids_count_up, IdCounter};
use crate::string_map::{entries_map, keys_distinct};
use crate::string_map::StringMap;
use crate::text::{
    lemma_split_once_parts,
    hex_digit_value, law_hex_digits_base_16, lemma_two_hex_digits, lower_hex_digits,
    upper_hex_digits,
    chars_of, from_utf8_lossy, hex_to_u8, parse_hex_u8, push_char, split_on, split_once,
    split_once_str, split_str, str_eq, string_of_range, str_to_lowercase, to_lowercase, utf8_lossy,
    views,
};
use vstd::prelude::*;
use vstd::utf8::{
    decode_utf8, encode_scalar, encode_utf8, encode_utf8_decode_utf8, encode_utf8_valid_utf8,
    valid_utf8,
};

verus! {

/// Unified context for both Fastify and Hono styles
pub struct FastifyContext {
    /// Unique context ID
    pub id: u64,
    /// Request ID (from underlying server)
    pub request_id: u64,
    /// HTTP method
    pub method: String,
    /// Request URL path
    pub url: String,
    /// Query string (without leading ?)
    pub query_string: String,
    /// Extracted route parameters
    pub params: StringMap<String>,
    /// Request headers
    pub headers: StringMap<String>,
    /// Request body (raw bytes)
    pub body: Option<Vec<u8>>,
    /// Response status code
    pub status_code: u16,
    /// Response headers
    pub response_headers: Vec<(String, String)>,
    /// Whether response has been sent
    pub sent: bool,
    /// Response body (if built incrementally)
    pub response_body: Option<Vec<u8>>,
    /// User data attached by auth middleware (NaN-boxed JSValue bits)
    pub user_data: u64,
    /// Cached `req.params` JS object built on first access; 0 means uncached.
    pub params_object_cache: std::sync::atomic::AtomicU64,
    /// Cached `req.query` JS object; same encoding as `params_object_cache`.
    pub query_object_cache: std::sync::atomic::AtomicU64,
    /// Cached `req.headers` JS object; same encoding as `params_object_cache`.
    pub headers_object_cache: std::sync::atomic::AtomicU64,
}

/// The bytes percent-decoding yields: `%` followed by up to two characters
/// that `u8::from_str_radix(.., 16)` accepts becomes the byte of that value;
/// otherwise `%` and those characters are kept. `+` becomes a space; every
/// other character is kept. Kept characters contribute their UTF-8 encoding.
pub open spec fn url_decode_bytes(s: Seq<char>) -> Seq<u8>
    decreases s.len(),
{
    if s.len() == 0 {
        Seq::empty()
    } else if s[0] == '%' {
        let end: int = if s.len() >= 3 { 3 } else { s.len() as int };
        let hex = s.subrange(1, end);
        match parse_hex_u8(hex) {
            Some(b) => seq![b] + url_decode_bytes(s.skip(end)),
            None => encode_utf8(seq!['%'] + hex) + url_decode_bytes(s.skip(end)),
        }
    } else if s[0] == '+' {
        seq![0x20u8] + url_decode_bytes(s.drop_first())
    } else {
        encode_utf8(seq![s[0]]) + url_decode_bytes(s.drop_first())
    }
}

/// A `%` followed by two base-16 digits, of either case, decodes to the one
/// byte `16 * hi + lo` they spell, and decoding goes on after them.
pub proof fn law_percent_escape_decodes(
    hi: int,
    lo: int,
    upper_hi: bool,
    upper_lo: bool,
    rest: Seq<char>,
)
    requires
        0 <= hi < 16,
        0 <= lo < 16,
    ensures
        ({
            let x = if upper_hi { upper_hex_digits()[hi] } else { lower_hex_digits()[hi] };
            let y = if upper_lo { upper_hex_digits()[lo] } else { lower_hex_digits()[lo] };
            url_decode_bytes(seq!['%', x, y] + rest) == seq![(16 * hi + lo) as u8]
                + url_decode_bytes(rest)
        }),
{
    let x = if upper_hi { upper_hex_digits()[hi] } else { lower_hex_digits()[hi] };
    let y = if upper_lo { upper_hex_digits()[lo] } else { lower_hex_digits()[lo] };
    law_hex_digits_base_16(x);
    assert(hex_digit_value(x) == Some(hi as nat));
    assert(hex_digit_value(y) == Some(lo as nat));
    lemma_two_hex_digits(x, y, hi as nat, lo as nat);
    let s = seq!['%', x, y] + rest;
    assert(s[0] == '%');
    assert(s.subrange(1, 3) =~= seq![x, y]);
    assert(s.skip(3) =~= rest);
}

/// URL decoding: the percent-decoded bytes read as UTF-8, lossily (invalid
/// sequences become U+FFFD, as `String::from_utf8_lossy` does).
pub open spec fn url_decode(s: Seq<char>) -> Seq<char> {
    let bytes = url_decode_bytes(s);
    if valid_utf8(bytes) {
        decode_utf8(bytes)
    } else {
        utf8_lossy(bytes)
    }
}

/// The decoded value of the first `key=value` pair whose key is `name`.
pub open spec fn query_param_in(pairs: Seq<Seq<char>>, name: Seq<char>) -> Option<Seq<char>>
    decreases pairs.len(),
{
    if pairs.len() == 0 {
        None
    } else {
        match split_once(pairs[0], '=') {
            Some((k, v)) => if k == name {
                Some(url_decode(v))
            } else {
                query_param_in(pairs.drop_first(), name)
            },
            None => query_param_in(pairs.drop_first(), name),
        }
    }
}

/// Every `key=value` pair, decoded; a later pair overrides an earlier one with
/// the same key, and pieces without `=` are skipped.
pub open spec fn query_map(pairs: Seq<Seq<char>>) -> Map<Seq<char>, Seq<char>>
    decreases pairs.len(),
{
    if pairs.len() == 0 {
        Map::empty()
    } else {
        match split_once(pairs.last(), '=') {
            Some((k, v)) => query_map(pairs.drop_last()).insert(k, url_decode(v)),
            None => query_map(pairs.drop_last()),
        }
    }
}

/// The key of a `key=value` pair; `None` for a piece without `=`.
pub open spec fn pair_key(pair: Seq<char>) -> Option<Seq<char>> {
    match split_once(pair, '=') {
        Some((k, _)) => Some(k),
        None => None,
    }
}

/// Some `key=value` pair has key `name`.
pub open spec fn has_query_key(pairs: Seq<Seq<char>>, name: Seq<char>) -> bool {
    exists|i: int| 0 <= i < pairs.len() && #[trigger] pair_key(pairs[i]) == Some(name)
}

/// ASCII lower-casing of one character.
pub open spec fn ascii_lower(c: char) -> char {
    if 'A' <= c && c <= 'Z' {
        ((c as u8) + 32) as char
    } else {
        c
    }
}

/// `str::eq_ignore_ascii_case`.
pub open spec fn eq_ignore_ascii_case(a: Seq<char>, b: Seq<char>) -> bool {
    a.len() == b.len() && forall|i: int| 0 <= i < a.len() ==> ascii_lower(a[i]) == ascii_lower(b[i])
}

/// Some response header is named `content-type`, ignoring ASCII case.
pub open spec fn has_content_type(headers: Seq<(String, String)>) -> bool {
    exists|i: int|
        0 <= i < headers.len() && eq_ignore_ascii_case(
            (#[trigger] headers[i]).0@,
            "content-type"@,
        )
}

/// A response header named `content-type` (ignoring ASCII case) at any
/// position means a content type is set, and headers added after it do not
/// change that; so a binary `send` then adds no header of its own.
pub proof fn law_content_type_anywhere(
    headers: Seq<(String, String)>,
    i: int,
    later: Seq<(String, String)>,
)
    requires
        0 <= i < headers.len(),
        eq_ignore_ascii_case(headers[i].0@, "content-type"@),
    ensures
        has_content_type(headers),
        has_content_type(headers + later),
{
    assert((headers + later)[i] == headers[i]);
}

/// The header name is matched without regard to ASCII case: `Content-Type`
/// and `CONTENT-TYPE`, at any position, set a content type just as
/// `content-type` does.
pub proof fn law_content_type_any_case(headers: Seq<(String, String)>, i: int)
    requires
        0 <= i < headers.len(),
        headers[i].0@ == "content-type"@ || headers[i].0@ == "Content-Type"@ || headers[i].0@
            == "CONTENT-TYPE"@,
    ensures
        has_content_type(headers),
{
    reveal_strlit("content-type");
    reveal_strlit("Content-Type");
    reveal_strlit("CONTENT-TYPE");
    let a = headers[i].0@;
    let b = "content-type"@;
    assert forall|j: int| 0 <= j < a.len() implies ascii_lower(a[j]) == ascii_lower(b[j]) by {}
    law_content_type_anywhere(headers, i, Seq::empty());
}

proof fn lemma_query_map_keys(pairs: Seq<Seq<char>>, name: Seq<char>)
    ensures
        query_map(pairs).contains_key(name) <==> has_query_key(pairs, name),
    decreases pairs.len(),
{
    if pairs.len() > 0 {
        let init = pairs.drop_last();
        lemma_query_map_keys(init, name);
        if has_query_key(init, name) {
            let i = choose|i: int| 0 <= i < init.len() && #[trigger] pair_key(init[i]) == Some(name);
            assert(pair_key(pairs[i]) == Some(name));
        }
        if has_query_key(pairs, name) {
            let i = choose|i: int| 0 <= i < pairs.len() && #[trigger] pair_key(pairs[i]) == Some(name);
            if i < pairs.len() - 1 {
                assert(pair_key(init[i]) == Some(name));
            }
        }
        if pair_key(pairs.last()) == Some(name) {
            assert(pair_key(pairs[pairs.len() - 1]) == Some(name));
        }
    }
}

proof fn lemma_query_param_keys(pairs: Seq<Seq<char>>, name: Seq<char>)
    ensures
        query_param_in(pairs, name) is Some <==> has_query_key(pairs, name),
    decreases pairs.len(),
{
    if pairs.len() > 0 {
        let tail = pairs.drop_first();
        lemma_query_param_keys(tail, name);
        if has_query_key(tail, name) {
            let i = choose|i: int| 0 <= i < tail.len() && #[trigger] pair_key(tail[i]) == Some(name);
            assert(pair_key(pairs[i + 1]) == Some(name));
        }
        if has_query_key(pairs, name) {
            let i = choose|i: int| 0 <= i < pairs.len() && #[trigger] pair_key(pairs[i]) == Some(name);
            if i > 0 {
                assert(pair_key(tail[i - 1]) == Some(name));
            }
        }
        if pair_key(pairs[0]) == Some(name) {
            assert(pair_key(pairs[0]) == Some(name));
        }
    }
}

/// A query parameter has a value in `get_query_params` exactly when
/// `get_query_param` finds it: both say whether some `key=value` pair of the
/// query string has that key.
pub proof fn law_query_param_presence(query: Seq<char>, name: Seq<char>)
    ensures
        query_map(split_on(query, '&')).contains_key(name) <==> has_query_key(
            split_on(query, '&'),
            name,
        ),
        query_param_in(split_on(query, '&'), name) is Some <==> has_query_key(
            split_on(query, '&'),
            name,
        ),
{
    lemma_query_map_keys(split_on(query, '&'), name);
    lemma_query_param_keys(split_on(query, '&'), name);
}

proof fn lemma_plain_bytes(s: Seq<char>)
    requires
        forall|i: int| 0 <= i < s.len() ==> s[i] != '%' && s[i] != '+',
    ensures
        url_decode_bytes(s) == encode_utf8(s),
    decreases s.len(),
{
    if s.len() > 0 {
        let t = s.drop_first();
        assert forall|i: int| 0 <= i < t.len() implies t[i] != '%' && t[i] != '+' by {
            assert(t[i] == s[i + 1]);
        }
        lemma_plain_bytes(t);
        let one = seq![s[0]];
        assert(one.drop_first() =~= Seq::<char>::empty());
        assert(encode_utf8(one.drop_first()) == Seq::<u8>::empty());
        assert(encode_utf8(one) == encode_scalar(one[0] as u32) + encode_utf8(one.drop_first()));
        assert(encode_utf8(one) =~= encode_scalar(s[0] as u32));
        assert(encode_utf8(s) == encode_scalar(s[0] as u32) + encode_utf8(t));
    }
}

/// Decoding leaves text without `%` and `+` unchanged.
pub proof fn law_decode_plain_text(s: Seq<char>)
    requires
        forall|i: int| 0 <= i < s.len() ==> s[i] != '%' && s[i] != '+',
    ensures
        url_decode(s) == s,
{
    lemma_plain_bytes(s);
    encode_utf8_valid_utf8(s);
    encode_utf8_decode_utf8(s);
}

/// Contexts whose ids are drawn one after the other from a fresh id counter
/// are numbered 1, 2, 3, …: a context created later has a larger id, and no
/// two share one (for fewer than `u64::MAX` contexts).
pub proof fn law_context_ids_count_up(counters: Seq<IdCounter>, ctxs: Seq<FastifyContext>)
    requires
        counters.len() == ctxs.len() + 1,
        ctxs.len() < u64::MAX,
        counters[0].upcoming() == 1,
        forall|j: int|
            0 <= j < ctxs.len() ==> IdCounter::issued(
                counters[j],
                #[trigger] counters[j + 1],
                ctxs[j].id,
            ),
    ensures
        forall|j: int| 0 <= j < ctxs.len() ==> #[trigger] ctxs[j].id == j + 1,
        forall|j: int, k: int|
            0 <= j < k < ctxs.len() ==> #[trigger] ctxs[j].id < #[trigger] ctxs[k].id,
{
    let ids = ctxs.map_values(|c: FastifyContext| c.id);
    assert forall|j: int| 0 <= j < ids.len() implies IdCounter::issued(
        counters[j],
        #[trigger] counters[j + 1],
        ids[j],
    ) by {
        assert(ids[j] == ctxs[j].id);
    }
    law_ids_count_up(counters, ids);
    assert forall|j: int| 0 <= j < ctxs.len() implies #[trigger] ctxs[j].id == j + 1 by {
        assert(ids[j] == ctxs[j].id);
    }
}

/// The path and query string a context keeps are the URL cut at its first
/// `?`; without a `?`, the path is the whole URL and the query string empty.
pub proof fn law_url_split(url: Seq<char>)
    ensures
        split_once(url, '?') is Some ==> url == FastifyContext::path_of(url) + seq!['?']
            + FastifyContext::query_of(url),
        split_once(url, '?') is None ==> FastifyContext::path_of(url) == url
            && FastifyContext::query_of(url).len() == 0,
{
    lemma_split_once_parts(url, '?');
}

fn ascii_lower_exec(c: char) -> (r: char)
    ensures
        r == ascii_lower(c),
{
    if 'A' <= c && c <= 'Z' {
        ((c as u8) + 32) as char
    } else {
        c
    }
}

/// `a.eq_ignore_ascii_case(b)`.
pub fn str_eq_ignore_ascii_case(a: &str, b: &str) -> (r: bool)
    ensures
        r == eq_ignore_ascii_case(a@, b@),
{
    let x = chars_of(a);
    let y = chars_of(b);
    if x.len() != y.len() {
        return false;
    }
    let mut i: usize = 0;
    while i < x.len()
        invariant
            x@ == a@,
            y@ == b@,
            x@.len() == y@.len(),
            i <= x@.len(),
            forall|j: int| 0 <= j < i ==> ascii_lower(x@[j]) == ascii_lower(y@[j]),
        decreases x@.len() - i,
    {
        if ascii_lower_exec(x[i]) != ascii_lower_exec(y[i]) {
            return false;
        }
        i = i + 1;
    }
    true
}

/// `out` followed by the UTF-8 encoding of `s`.
fn append_utf8(out: &mut Vec<u8>, s: &str)
    ensures
        final(out)@ == old(out)@ + encode_utf8(s@),
{
    let bytes = s.as_bytes();
    let ghost start = out@;
    let mut i: usize = 0;
    while i < bytes.len()
        invariant
            i <= bytes@.len(),
            bytes@ == encode_utf8(s@),
            out@ == start + bytes@.take(i as int),
        decreases bytes@.len() - i,
    {
        out.push(bytes[i]);
        i = i + 1;
        assert(out@ =~= start + bytes@.take(i as int));
    }
    assert(bytes@.take(bytes@.len() as int) =~= bytes@);
}

/// Simple URL decoding
pub fn urlencoding_decode(s: &str) -> (r: String)
    ensures
        r@ == url_decode(s@),
{
    let v = chars_of(s);
    let ghost t = v@;
    let mut out: Vec<u8> = Vec::new();
    let mut i: usize = 0;
    assert(t.skip(0) =~= t);
    while i < v.len()
        invariant
            t == v@,
            i <= t.len(),
            url_decode_bytes(t) == out@ + url_decode_bytes(t.skip(i as int)),
        decreases t.len() - i,
    {
        let ghost rest = t.skip(i as int);
        let ghost before = out@;
        let c = v[i];
        assert(rest[0] == c);
        if c == '%' {
            let end = if v.len() - i >= 3 {
                i + 3
            } else {
                v.len()
            };
            let hex = string_of_range(&v, i + 1, end);
            assert(hex@ =~= rest.subrange(1, (end - i) as int));
            assert(rest.skip((end - i) as int) =~= t.skip(end as int));
            match hex_to_u8(hex.as_str()) {
                Some(byte) => {
                    out.push(byte);
                    assert(out@ =~= before + seq![byte]);
                },
                None => {
                    let mut kept = String::new();
                    push_char(&mut kept, '%');
                    kept.append(hex.as_str());
                    assert(kept@ =~= seq!['%'] + hex@);
                    append_utf8(&mut out, kept.as_str());
                },
            }
            i = end;
        } else {
            if c == '+' {
                out.push(0x20u8);
                assert(out@ =~= before + seq![0x20u8]);
            } else {
                let mut one = String::new();
                push_char(&mut one, c);
                assert(one@ =~= seq![c]);
                append_utf8(&mut out, one.as_str());
            }
            assert(rest.drop_first() =~= t.skip(i + 1));
            i = i + 1;
        }
    }
    assert(t.skip(t.len() as int) =~= Seq::<char>::empty());
    from_utf8_lossy(out.as_slice())
}

impl FastifyContext {
    /// The request side of the two contexts is the same: ids, method, URL,
    /// query string, parameters, headers, body, user data and caches.
    pub open spec fn request_unchanged(&self, other: &FastifyContext) -> bool {
        &&& self.id == other.id
        &&& self.request_id == other.request_id
        &&& self.method == other.method
        &&& self.url == other.url
        &&& self.query_string == other.query_string
        &&& self.params == other.params
        &&& self.headers == other.headers
        &&& self.body == other.body
        &&& self.user_data == other.user_data
        &&& self.params_object_cache == other.params_object_cache
        &&& self.query_object_cache == other.query_object_cache
        &&& self.headers_object_cache == other.headers_object_cache
    }

    /// The text after the first `?` of `url`, or nothing.
    pub open spec fn query_of(url: Seq<char>) -> Seq<char> {
        match split_once(url, '?') {
            Some((_, q)) => q,
            None => Seq::empty(),
        }
    }

    /// The path of `url`: the text before the first `?`.
    pub open spec fn path_of(url: Seq<char>) -> Seq<char> {
        match split_once(url, '?') {
            Some((p, _)) => p,
            None => url,
        }
    }

    /// Create a new context
    pub fn new(
        id: u64,
        request_id: u64,
        method: String,
        url: String,
        headers: StringMap<String>,
        body: Option<Vec<u8>>,
        params: StringMap<String>,
    ) -> (ctx: Self)
        ensures
            ctx.id == id,
            ctx.request_id == request_id,
            ctx.method == method,
            ctx.url@ == FastifyContext::path_of(url@),
            ctx.query_string@ == FastifyContext::query_of(url@),
            ctx.headers == headers,
            ctx.body == body,
            ctx.params == params,
            ctx.status_code == 200,
            ctx.response_headers@.len() == 0,
            !ctx.sent,
            ctx.response_body is None,
            ctx.user_data == TAG_UNDEFINED,
    {
        let (path, query_string) = match split_once_str(url.as_str(), '?') {
            Some((p, q)) => (p, q),
            None => (url, String::new()),
        };
        FastifyContext {
            id,
            request_id,
            method,
            url: path,
            query_string,
            params,
            headers,
            body,
            status_code: 200,
            response_headers: Vec::new(),
            sent: false,
            response_body: None,
            user_data: TAG_UNDEFINED,
            params_object_cache: std::sync::atomic::AtomicU64::new(0),
            query_object_cache: std::sync::atomic::AtomicU64::new(0),
            headers_object_cache: std::sync::atomic::AtomicU64::new(0),
        }
    }

    /// Get a request header value; the name is lower-cased first.
    pub fn get_header(&self, name: &str) -> (r: Option<&str>)
        ensures
            match r {
                Some(v) => self.headers@.contains_key(str_to_lowercase(name@)) && v@
                    == self.headers@[str_to_lowercase(name@)],
                None => !self.headers@.contains_key(str_to_lowercase(name@)),
            },
    {
        let lowered = to_lowercase(name);
        self.header_value(lowered.as_str())
    }

    /// The request header stored under exactly `lowered`.
    pub fn header_value(&self, lowered: &str) -> (r: Option<&str>)
        ensures
            match r {
                Some(v) => self.headers@.contains_key(lowered@) && v@ == self.headers@[lowered@],
                None => !self.headers@.contains_key(lowered@),
            },
    {
        match self.headers.get(lowered) {
            Some(v) => Some(v.as_str()),
            None => None,
        }
    }

    /// The request URL with its query string (`req.url`): the path, then `?`
    /// and the query string when there is one.
    pub fn full_url(&self) -> (r: String)
        ensures
            r@ == (if self.query_string@.len() == 0 {
                self.url@
            } else {
                self.url@ + seq!['?'] + self.query_string@
            }),
    {
        if self.query_string.as_str().is_empty() {
            self.url.clone()
        } else {
            let mut r = self.url.clone();
            push_char(&mut r, '?');
            r.append(self.query_string.as_str());
            r
        }
    }

    /// Get a route parameter value
    pub fn get_param(&self, name: &str) -> (r: Option<&str>)
        ensures
            match r {
                Some(v) => self.params@.contains_key(name@) && v@ == self.params@[name@],
                None => !self.params@.contains_key(name@),
            },
    {
        match self.params.get(name) {
            Some(v) => Some(v.as_str()),
            None => None,
        }
    }

    /// Get a query parameter value
    pub fn get_query_param(&self, name: &str) -> (r: Option<String>)
        ensures
            match query_param_in(split_on(self.query_string@, '&'), name@) {
                Some(v) => r matches Some(s) && s@ == v,
                None => r is None,
            },
    {
        let pairs = split_str(self.query_string.as_str(), '&');
        let ghost pv = views(pairs@);
        let mut i: usize = 0;
        assert(pv.skip(0) =~= pv);
        while i < pairs.len()
            invariant
                pv == views(pairs@),
                pv == split_on(self.query_string@, '&'),
                i <= pairs@.len(),
                query_param_in(pv, name@) == query_param_in(pv.skip(i as int), name@),
            decreases pairs@.len() - i,
        {
            let ghost rest = pv.skip(i as int);
            assert(rest[0] == pairs@[i as int]@);
            assert(rest.drop_first() =~= pv.skip(i + 1));
            match split_once_str(pairs[i].as_str(), '=') {
                Some((key, value)) => {
                    if str_eq(key.as_str(), name) {
                        return Some(urlencoding_decode(value.as_str()));
                    }
                },
                None => {},
            }
            i = i + 1;
        }
        None
    }

    /// Get all query parameters as a map
    pub fn get_query_params(&self) -> (r: StringMap<String>)
        ensures
            r@ == query_map(split_on(self.query_string@, '&')),
    {
        let pairs = split_str(self.query_string.as_str(), '&');
        let ghost pv = views(pairs@);
        let mut params: StringMap<String> = StringMap::new();
        let mut i: usize = 0;
        assert(pv.take(0) =~= Seq::<Seq<char>>::empty());
        while i < pairs.len()
            invariant
                pv == views(pairs@),
                i <= pairs@.len(),
                params@ == query_map(pv.take(i as int)),
            decreases pairs@.len() - i,
        {
            let ghost next = pv.take(i + 1);
            assert(next.drop_last() =~= pv.take(i as int));
            assert(next.last() == pairs@[i as int]@);
            match split_once_str(pairs[i].as_str(), '=') {
                Some((key, value)) => {
                    let decoded = urlencoding_decode(value.as_str());
                    params.insert(key, decoded);
                },
                None => {},
            }
            i = i + 1;
        }
        assert(pv.take(pairs@.len() as int) =~= pv);
        params
    }

    /// The route parameters as a JSON object (`req.params` as text).
    pub fn params_json(&self) -> (r: Result<String, JsonError>)
        ensures
            r matches Ok(t) && t@ == json_object_text(entry_views(self.params.spec_entries())),
    {
        json_object(&self.params)
    }

    /// The query parameters as a JSON object (`req.query` as text): the
    /// entries of `get_query_params`, keys sorted as `serde_json::Map` orders them.
    pub fn query_json(&self) -> (r: Result<String, JsonError>)
        ensures
            r matches Ok(t) && exists|es: Seq<(String, String)>|
                keys_distinct(es) && entries_map(es) == query_map(
                    split_on(self.query_string@, '&'),
                ) && t@ == json_object_text(entry_views(es)),
    {
        let params = self.get_query_params();
        let _ = params.entries();
        let r = json_object(&params);
        proof {
            let es = params.spec_entries();
            assert(keys_distinct(es) && entries_map(es) == query_map(
                split_on(self.query_string@, '&'),
            ));
        }
        r
    }

    /// Get body as string
    pub fn body_string(&self) -> (r: Option<String>)
        ensures
            match self.body {
                Some(b) => r matches Some(s) && s@ == utf8_lossy(b@) && (vstd::utf8::valid_utf8(b@)
                    ==> s@ == vstd::utf8::decode_utf8(b@)),
                None => r is None,
            },
    {
        match &self.body {
            Some(b) => Some(from_utf8_lossy(b.as_slice())),
            None => None,
        }
    }

    /// `request.json()`: the body, read as text, parsed as JSON; `None` when
    /// there is no body or it is not JSON.
    pub fn json_body(&self) -> (r: Option<serde_json::Value>)
        ensures
            match self.body {
                Some(b) => (r is Some <==> json_parses(utf8_lossy(b@))),
                None => r is None,
            },
    {
        match self.body_string() {
            Some(text) => parse_json_text(text.as_str()),
            None => None,
        }
    }

    /// Set response status code
    pub fn set_status(&mut self, code: u16)
        ensures
            final(self).request_unchanged(&*old(self)),
            final(self).status_code == code,
            final(self).response_headers == old(self).response_headers,
            final(self).response_body == old(self).response_body,
            final(self).sent == old(self).sent,
    {
        self.status_code = code;
    }

    /// Add a response header
    pub fn add_header(&mut self, name: &str, value: &str)
        ensures
            final(self).request_unchanged(&*old(self)),
            final(self).response_headers@.len() == old(self).response_headers@.len() + 1,
            forall|i: int|
                0 <= i < old(self).response_headers@.len() ==> final(self).response_headers@[i]
                    == old(self).response_headers@[i],
            final(self).response_headers@.last().0@ == name@,
            final(self).response_headers@.last().1@ == value@,
            final(self).status_code == old(self).status_code,
            final(self).response_body == old(self).response_body,
            final(self).sent == old(self).sent,
    {
        self.response_headers.push((name.to_owned(), value.to_owned()));
    }

    /// `reply.type(value)`: adds a `content-type` response header.
    pub fn set_content_type(&mut self, value: &str)
        ensures
            final(self).request_unchanged(&*old(self)),
            final(self).response_headers@.len() == old(self).response_headers@.len() + 1,
            forall|i: int|
                0 <= i < old(self).response_headers@.len() ==> final(self).response_headers@[i]
                    == old(self).response_headers@[i],
            final(self).response_headers@.last().0@ == "content-type"@,
            final(self).response_headers@.last().1@ == value@,
            final(self).status_code == old(self).status_code,
            final(self).response_body == old(self).response_body,
            final(self).sent == old(self).sent,
    {
        self.add_header("content-type", value);
    }

    /// Whether some response header is named `content-type`, ignoring ASCII case.
    pub fn has_content_type(&self) -> (b: bool)
        ensures
            b == has_content_type(self.response_headers@),
    {
        let mut i: usize = 0;
        while i < self.response_headers.len()
            invariant
                i <= self.response_headers@.len(),
                forall|j: int|
                    0 <= j < i ==> !eq_ignore_ascii_case(
                        (#[trigger] self.response_headers@[j]).0@,
                        "content-type"@,
                    ),
            decreases self.response_headers@.len() - i,
        {
            if str_eq_ignore_ascii_case(self.response_headers[i].0.as_str(), "content-type") {
                assert(eq_ignore_ascii_case(self.response_headers@[i as int].0@, "content-type"@));
                return true;
            }
            i = i + 1;
        }
        false
    }

    /// `reply.send(..)` with the payload already turned into bytes: a no-op
    /// returning `false` once a response was sent; otherwise stores the body,
    /// marks the reply sent and returns `true`. A binary payload adds
    /// `content-type: application/octet-stream` unless a content type is set.
    pub fn send(&mut self, body: Vec<u8>, binary: bool) -> (newly_sent: bool)
        ensures
            final(self).request_unchanged(&*old(self)),
            newly_sent == !old(self).sent,
            old(self).sent ==> final(self).response_body == old(self).response_body
                && final(self).response_headers == old(self).response_headers
                && final(self).sent,
            !old(self).sent ==> {
                &&& final(self).sent
                &&& final(self).response_body == Some(body)
                &&& if binary && !has_content_type(old(self).response_headers@) {
                    &&& final(self).response_headers@.len()
                        == old(self).response_headers@.len() + 1
                    &&& final(self).response_headers@.drop_last() == old(self).response_headers@
                    &&& final(self).response_headers@.last().0@ == "content-type"@
                    &&& final(self).response_headers@.last().1@
                        == "application/octet-stream"@
                } else {
                    final(self).response_headers == old(self).response_headers
                }
            },
            final(self).status_code == old(self).status_code,
    {
        if self.sent {
            return false;
        }
        if binary && !self.has_content_type() {
            self.add_header("content-type", "application/octet-stream");
            assert(self.response_headers@.drop_last() =~= old(self).response_headers@);
        }
        self.response_body = Some(body);
        self.sent = true;
        true
    }

    fn respond(&mut self, status: Option<u16>, content_type: &str, body: Vec<u8>)
        ensures
            final(self).request_unchanged(&*old(self)),
            final(self).status_code == (match status {
                Some(code) => code,
                None => old(self).status_code,
            }),
            final(self).response_headers@.len() == old(self).response_headers@.len() + 1,
            final(self).response_headers@.drop_last() == old(self).response_headers@,
            final(self).response_headers@.last().0@ == "content-type"@,
            final(self).response_headers@.last().1@ == content_type@,
            final(self).response_body == Some(body),
            final(self).sent,
    {
        match status {
            Some(code) => {
                self.status_code = code;
            },
            None => {},
        }
        self.add_header("content-type", content_type);
        assert(self.response_headers@.drop_last() =~= old(self).response_headers@);
        self.response_body = Some(body);
        self.sent = true;
    }

    /// `c.json(data, status)` with the data already serialised: sets the
    /// status when one is given, adds `content-type: application/json;
    /// charset=utf-8`, stores the body and marks the reply sent.
    pub fn respond_json(&mut self, status: Option<u16>, body: Vec<u8>)
        ensures
            final(self).request_unchanged(&*old(self)),
            final(self).status_code == (match status {
                Some(code) => code,
                None => old(self).status_code,
            }),
            final(self).response_headers@.drop_last() == old(self).response_headers@,
            final(self).response_headers@.len() == old(self).response_headers@.len() + 1,
            final(self).response_headers@.last().0@ == "content-type"@,
            final(self).response_headers@.last().1@ == "application/json; charset=utf-8"@,
            final(self).response_body == Some(body),
            final(self).sent,
    {
        self.respond(status, "application/json; charset=utf-8", body);
    }

    /// `c.text(text, status)`: like `respond_json` with `text/plain; charset=utf-8`.
    pub fn respond_text(&mut self, status: Option<u16>, text: String)
        ensures
            final(self).request_unchanged(&*old(self)),
            final(self).status_code == (match status {
                Some(code) => code,
                None => old(self).status_code,
            }),
            final(self).response_headers@.drop_last() == old(self).response_headers@,
            final(self).response_headers@.len() == old(self).response_headers@.len() + 1,
            final(self).response_headers@.last().0@ == "content-type"@,
            final(self).response_headers@.last().1@ == "text/plain; charset=utf-8"@,
            final(self).response_body matches Some(b) && b@ == vstd::utf8::encode_utf8(text@),
            final(self).sent,
    {
        let bytes = text.as_str().as_bytes_vec();
        self.respond(status, "text/plain; charset=utf-8", bytes);
    }

    /// `c.html(html, status)`: like `respond_json` with `text/html; charset=utf-8`.
    pub fn respond_html(&mut self, status: Option<u16>, html: String)
        ensures
            final(self).request_unchanged(&*old(self)),
            final(self).status_code == (match status {
                Some(code) => code,
                None => old(self).status_code,
            }),
            final(self).response_headers@.drop_last() == old(self).response_headers@,
            final(self).response_headers@.len() == old(self).response_headers@.len() + 1,
            final(self).response_headers@.last().0@ == "content-type"@,
            final(self).response_headers@.last().1@ == "text/html; charset=utf-8"@,
            final(self).response_body matches Some(b) && b@ == vstd::utf8::encode_utf8(html@),
            final(self).sent,
    {
        let bytes = html.as_str().as_bytes_vec();
        self.respond(status, "text/html; charset=utf-8", bytes);
    }

    /// `c.redirect(url, status)`: status as given or 302, a `location` header,
    /// an empty body, and the reply marked sent.
    pub fn redirect(&mut self, status: Option<u16>, url: String)
        ensures
            final(self).request_unchanged(&*old(self)),
            final(self).status_code == (match status {
                Some(code) => code,
                None => 302u16,
            }),
            final(self).response_headers@.drop_last() == old(self).response_headers@,
            final(self).response_headers@.len() == old(self).response_headers@.len() + 1,
            final(self).response_headers@.last().0@ == "location"@,
            final(self).response_headers@.last().1@ == url@,
            final(self).response_body matches Some(b) && b@.len() == 0,
            final(self).sent,
    {
        self.status_code = match status {
            Some(code) => code,
            None => 302,
        };
        let ghost before = self.response_headers@;
        self.response_headers.push(("location".to_owned(), url));
        assert(self.response_headers@.drop_last() =~= before);
        self.response_body = Some(Vec::new());
        self.sent = true;
    }
}

} // verus!
