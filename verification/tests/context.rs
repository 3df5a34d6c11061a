use perry_fastify::context::{str_eq_ignore_ascii_case, urlencoding_decode, FastifyContext};
use perry_fastify::json::json_string_literal;
use perry_fastify::nanbox::TAG_UNDEFINED;
use perry_fastify::string_map::StringMap;

fn ctx_with(url: &str, headers: &[(&str, &str)], body: Option<Vec<u8>>) -> FastifyContext {
    let mut h = StringMap::new();
    for (k, v) in headers {
        h.insert(k.to_string(), v.to_string());
    }
    let mut params = StringMap::new();
    params.insert("id".to_string(), "42".to_string());
    FastifyContext::new(7, 9, "GET".to_string(), url.to_string(), h, body, params)
}

#[test]
fn new_splits_url_at_first_question_mark() {
    let ctx = ctx_with("/users?a=1?b=2", &[], None);
    assert_eq!(ctx.url, "/users");
    assert_eq!(ctx.query_string, "a=1?b=2");
    assert_eq!(ctx.id, 7);
    assert_eq!(ctx.request_id, 9);
    assert_eq!(ctx.status_code, 200);
    assert!(!ctx.sent);
    assert!(ctx.response_headers.is_empty());
    assert!(ctx.response_body.is_none());
    assert_eq!(ctx.user_data, TAG_UNDEFINED);
    assert_eq!(ctx.user_data, 0x7FFC_0000_0000_0001);

    assert_eq!(ctx.full_url(), "/users?a=1?b=2");

    let plain = ctx_with("/users", &[], None);
    assert_eq!(plain.full_url(), "/users");
    assert_eq!(plain.url, "/users");
    assert_eq!(plain.query_string, "");
}

#[test]
fn header_lookup_lower_cases_the_name() {
    let ctx = ctx_with("/", &[("content-type", "text/html")], None);
    assert_eq!(ctx.get_header("Content-Type"), Some("text/html"));
    assert_eq!(ctx.get_header("content-type"), Some("text/html"));
    assert_eq!(ctx.get_header("accept"), None);
    assert_eq!(ctx.header_value("Content-Type"), None);
}

#[test]
fn param_lookup() {
    let ctx = ctx_with("/", &[], None);
    assert_eq!(ctx.get_param("id"), Some("42"));
    assert_eq!(ctx.get_param("ID"), None);
}

#[test]
fn query_param_takes_first_pair_and_decodes() {
    let ctx = ctx_with("/s?q=hello+world&x=%41%42&q=second&flag&empty=", &[], None);
    assert_eq!(ctx.get_query_param("q"), Some("hello world".to_string()));
    assert_eq!(ctx.get_query_param("x"), Some("AB".to_string()));
    assert_eq!(ctx.get_query_param("flag"), None);
    assert_eq!(ctx.get_query_param("empty"), Some("".to_string()));
    assert_eq!(ctx.get_query_param("missing"), None);
}

#[test]
fn query_params_keep_last_pair_per_key() {
    let ctx = ctx_with("/s?q=hello+world&x=%41%42&q=second&flag&empty=", &[], None);
    let m = ctx.get_query_params();
    assert_eq!(m.get("q"), Some(&"second".to_string()));
    assert_eq!(m.get("x"), Some(&"AB".to_string()));
    assert_eq!(m.get("flag"), None);
    assert_eq!(m.get("empty"), Some(&"".to_string()));
    assert_eq!(m.len(), 3);
    for name in ["q", "x", "flag", "empty", "missing"] {
        assert_eq!(m.contains_key(name), ctx.get_query_param(name).is_some());
    }
}

#[test]
fn url_decoding_cases() {
    assert_eq!(urlencoding_decode("a+b%20c"), "a b c");
    assert_eq!(urlencoding_decode("%41"), "A");
    assert_eq!(urlencoding_decode("%e9"), "\u{fffd}");
    assert_eq!(urlencoding_decode("%C3%A9"), "\u{e9}");
    assert_eq!(urlencoding_decode("caf%c3%a9+%E2%82%AC"), "caf\u{e9} \u{20ac}");
    assert_eq!(urlencoding_decode("%zz1"), "%zz1");
    assert_eq!(urlencoding_decode("%4"), "\u{4}");
    assert_eq!(urlencoding_decode("%"), "%");
    assert_eq!(urlencoding_decode("%+4x"), "\u{4}x");
    assert_eq!(urlencoding_decode("%-1"), "%-1");
    assert_eq!(urlencoding_decode("plain-text"), "plain-text");
    assert_eq!(urlencoding_decode(""), "");
}

#[test]
fn body_string_is_lossy_utf8() {
    let ctx = ctx_with("/", &[], Some(vec![b'h', b'i', 0xff]));
    assert_eq!(ctx.body_string(), Some("hi\u{fffd}".to_string()));
    let ctx = ctx_with("/", &[], Some("caf\u{e9}".as_bytes().to_vec()));
    assert_eq!(ctx.body_string(), Some("caf\u{e9}".to_string()));
    let ctx = ctx_with("/", &[], None);
    assert_eq!(ctx.body_string(), None);
}

#[test]
fn status_and_headers() {
    let mut ctx = ctx_with("/", &[], None);
    ctx.set_status(404);
    assert_eq!(ctx.status_code, 404);
    ctx.add_header("x-a", "1");
    ctx.set_content_type("text/css");
    assert_eq!(
        ctx.response_headers,
        vec![
            ("x-a".to_string(), "1".to_string()),
            ("content-type".to_string(), "text/css".to_string())
        ]
    );
    assert!(ctx.has_content_type());
}

#[test]
fn send_only_once_and_defaults_binary_type() {
    let mut ctx = ctx_with("/", &[], None);
    assert!(ctx.send(vec![1, 2, 3], true));
    assert!(ctx.sent);
    assert_eq!(ctx.response_body, Some(vec![1, 2, 3]));
    assert_eq!(
        ctx.response_headers,
        vec![("content-type".to_string(), "application/octet-stream".to_string())]
    );
    assert!(!ctx.send(vec![9], true));
    assert_eq!(ctx.response_body, Some(vec![1, 2, 3]));
    assert_eq!(ctx.response_headers.len(), 1);

    let mut typed = ctx_with("/", &[], None);
    typed.add_header("Content-Type", "image/png");
    assert!(typed.send(vec![0], true));
    assert_eq!(typed.response_headers.len(), 1);

    let mut text = ctx_with("/", &[], None);
    assert!(text.send(b"hi".to_vec(), false));
    assert!(text.response_headers.is_empty());
}

#[test]
fn hono_style_responses() {
    let mut ctx = ctx_with("/", &[], None);
    ctx.respond_json(Some(201), b"{}".to_vec());
    assert_eq!(ctx.status_code, 201);
    assert_eq!(
        ctx.response_headers.last().unwrap(),
        &("content-type".to_string(), "application/json; charset=utf-8".to_string())
    );
    assert_eq!(ctx.response_body, Some(b"{}".to_vec()));
    assert!(ctx.sent);

    let mut t = ctx_with("/", &[], None);
    t.respond_text(None, "pong".to_string());
    assert_eq!(t.status_code, 200);
    assert_eq!(t.response_headers[0].1, "text/plain; charset=utf-8");
    assert_eq!(t.response_body, Some(b"pong".to_vec()));

    let mut h = ctx_with("/", &[], None);
    h.respond_html(Some(500), "<b>x</b>".to_string());
    assert_eq!(h.status_code, 500);
    assert_eq!(h.response_headers[0].1, "text/html; charset=utf-8");
    assert_eq!(h.response_body, Some(b"<b>x</b>".to_vec()));
}

#[test]
fn redirect_defaults_to_302() {
    let mut ctx = ctx_with("/", &[], None);
    ctx.redirect(None, "/login".to_string());
    assert_eq!(ctx.status_code, 302);
    assert_eq!(ctx.response_headers, vec![("location".to_string(), "/login".to_string())]);
    assert_eq!(ctx.response_body, Some(Vec::new()));
    assert!(ctx.sent);

    let mut p = ctx_with("/", &[], None);
    p.redirect(Some(301), "/new".to_string());
    assert_eq!(p.status_code, 301);
}

#[test]
fn ascii_case_insensitive_compare() {
    assert!(str_eq_ignore_ascii_case("Content-TYPE", "content-type"));
    assert!(!str_eq_ignore_ascii_case("content-typ", "content-type"));
    assert!(!str_eq_ignore_ascii_case("\u{c9}", "\u{e9}"));
}

#[test]
fn json_text_of_params_and_query() {
    let mut params = StringMap::new();
    params.insert("b".to_string(), "2".to_string());
    params.insert("a".to_string(), "x\"y".to_string());
    let ctx = FastifyContext::new(1, 1, "GET".to_string(), "/p?k=v+w&j=1".to_string(), StringMap::new(), None, params);
    assert_eq!(ctx.params_json().unwrap(), "{\"a\":\"x\\\"y\",\"b\":\"2\"}");
    assert_eq!(ctx.query_json().unwrap(), "{\"j\":\"1\",\"k\":\"v w\"}");
}

#[test]
fn json_string_literal_escapes() {
    assert_eq!(json_string_literal("a\"b\n"), "\"a\\\"b\\n\"");
    assert_eq!(json_string_literal(""), "\"\"");
    assert_eq!(json_string_literal("\u{1}\u{1f}\u{8}\t\r\u{c}\\"), "\"\\u0001\\u001f\\b\\t\\r\\f\\\\\"");
    assert_eq!(json_string_literal("\u{7f}é/"), "\"\u{7f}é/\"");
}

#[test]
fn params_json_orders_keys() {
    let mut params = StringMap::new();
    params.insert("zeta".to_string(), "1".to_string());
    params.insert("Zed".to_string(), "2".to_string());
    params.insert("ab".to_string(), "3".to_string());
    params.insert("a".to_string(), "4".to_string());
    let ctx = FastifyContext::new(1, 1, "GET".to_string(), "/".to_string(), StringMap::new(), None, params);
    assert_eq!(ctx.params_json().unwrap(), "{\"Zed\":\"2\",\"a\":\"4\",\"ab\":\"3\",\"zeta\":\"1\"}");
}

#[test]
fn json_body_parses_only_json() {
    let ctx = ctx_with("/p", &[], Some(b" {\"a\": [1, true, null]} ".to_vec()));
    let value = ctx.json_body().unwrap();
    assert_eq!(value.to_string(), "{\"a\":[1,true,null]}");
    let ctx = ctx_with("/p", &[], Some(b"{\"a\":".to_vec()));
    assert!(ctx.json_body().is_none());
    let ctx = ctx_with("/p", &[], Some(b"42".to_vec()));
    assert_eq!(ctx.json_body().unwrap().to_string(), "42");
    let ctx = ctx_with("/p", &[], None);
    assert!(ctx.json_body().is_none());
}
