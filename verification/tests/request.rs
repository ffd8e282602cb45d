use hb::error::Error;
use hb::error::ErrorKind;
use hb::request::content_from_options;
use hb::request::decimal_string;
use hb::request::generate_requests;
use hb::request::Content;
use hb::request::Method;
use hb::request::Request;
use hb::request::Scheme;
use hb::request::Url;
use hb::run::Response;
use hb::time::Seconds;

fn url_with(scheme: Scheme, port: Option<u16>, query: Option<&str>, fragment: Option<&str>) -> Url {
    Url {
        scheme,
        host: String::from("example.com"),
        port,
        path: String::from("/x"),
        query: query.map(String::from),
        fragment: fragment.map(String::from),
    }
}

fn get(url: Url) -> Request {
    Request { method: Method::Get, url, content: None, timeout: None, start_time: None }
}

#[test]
fn seconds_converts_through_parts() {
    let s = Seconds::from_parts(3, 250_000_000);
    assert_eq!(s.nanos, 3_250_000_000);
    assert_eq!(s.secs(), 3);
    assert_eq!(s.subsec_nanos(), 250_000_000);
    assert_eq!(Seconds::zero().nanos, 0);
    assert_eq!(Seconds::from_nanos(17).nanos, 17);
}

#[test]
fn seconds_arithmetic_and_order() {
    let a = Seconds::from_parts(1, 500_000_000);
    let b = Seconds::from_parts(0, 700_000_000);
    assert_eq!(a.add(b), Seconds::from_parts(2, 200_000_000));
    assert_eq!(a.sub(b), Seconds::from_parts(0, 800_000_000));
    assert!(b.lt(a));
    assert!(b.le(a));
    assert!(a.le(a));
    assert!(!a.lt(a));
}

#[test]
fn content_size_and_bytes() {
    let text = Content::Text(String::from("abc"));
    assert_eq!(text.size(), 3);
    assert_eq!(text.to_bytes(), vec![b'a', b'b', b'c']);
    let zeros = Content::Size(4);
    assert_eq!(zeros.size(), 4);
    assert_eq!(zeros.to_bytes(), vec![0u8, 0, 0, 0]);
}

#[test]
fn method_names_are_uppercase() {
    assert_eq!(Method::Get.name(), "GET");
    assert_eq!(Method::Head.name(), "HEAD");
    assert_eq!(Method::Post.name(), "POST");
    assert_eq!(Method::Put.name(), "PUT");
    assert_eq!(Method::Delete.name(), "DELETE");
}

#[test]
fn decimal_strings_are_exact() {
    assert_eq!(decimal_string(0), "0");
    assert_eq!(decimal_string(7), "7");
    assert_eq!(decimal_string(80), "80");
    assert_eq!(decimal_string(65535), "65535");
    assert_eq!(decimal_string(1234567890), "1234567890");
}

#[test]
fn addr_uses_scheme_default_ports() {
    let r = get(url_with(Scheme::Http, None, None, None));
    assert_eq!(r.addr(), "example.com:80");
    let r = get(url_with(Scheme::Https, None, None, None));
    assert_eq!(r.addr(), "example.com:443");
    let r = get(url_with(Scheme::Http, Some(8080), None, None));
    assert_eq!(r.addr(), "example.com:8080");
}

#[test]
fn path_includes_query_and_fragment() {
    let r = get(url_with(Scheme::Http, None, None, None));
    assert_eq!(r.path(), "/x");
    let r = get(url_with(Scheme::Http, None, Some("y=1"), None));
    assert_eq!(r.path(), "/x?y=1");
    let r = get(url_with(Scheme::Http, None, Some("y=1"), Some("z")));
    assert_eq!(r.path(), "/x?y=1#z");
    let r = get(url_with(Scheme::Http, None, None, Some("z")));
    assert_eq!(r.path(), "/x#z");
}

#[test]
fn head_composes_request_line_and_headers() {
    let r = get(url_with(Scheme::Http, None, Some("y=1"), Some("z")));
    assert_eq!(
        r.head(),
        "GET /x?y=1#z HTTP/1.1\r\nHost: example.com\r\nContent-Length: 0\r\n\r\n"
    );
}

#[test]
fn post_carries_content_and_its_length() {
    let mut r = get(url_with(Scheme::Http, None, None, None));
    r.method = Method::Post;
    r.content = Some(Content::Text(String::from("hello")));
    assert_eq!(r.body_bytes(), b"hello".to_vec());
    assert_eq!(
        r.head(),
        "POST /x HTTP/1.1\r\nHost: example.com\r\nContent-Length: 5\r\n\r\n"
    );
}

#[test]
fn get_sends_zero_length_body_even_with_content() {
    let mut r = get(url_with(Scheme::Http, None, None, None));
    r.content = Some(Content::Size(9));
    assert_eq!(r.body_bytes(), Vec::<u8>::new());
    assert_eq!(
        r.head(),
        "GET /x HTTP/1.1\r\nHost: example.com\r\nContent-Length: 0\r\n\r\n"
    );
}

#[test]
fn response_drops_body_on_success() {
    let r = Response::new(200, b"hi".to_vec());
    assert_eq!(r.status, 200);
    assert_eq!(r.content_length, 2);
    assert!(r.content.is_none());
}

#[test]
fn response_keeps_decoded_body_on_failure() {
    let r = Response::new(404, b"nope".to_vec());
    assert_eq!(r.status, 404);
    assert_eq!(r.content_length, 4);
    assert_eq!(r.content, Some(String::from("nope")));
}

#[test]
fn response_omits_body_that_is_not_utf8() {
    let r = Response::new(500, vec![0xff, 0xfe, 0x01]);
    assert_eq!(r.content_length, 3);
    assert!(r.content.is_none());
}

#[test]
fn generated_requests_cycle_the_url_list() {
    let urls = vec![
        url_with(Scheme::Http, None, None, None),
        url_with(Scheme::Https, None, None, None),
    ];
    let rs = generate_requests(&urls, 5, Method::Head, &None);
    assert_eq!(rs.len(), 5);
    assert_eq!(rs[0].url.scheme, Scheme::Http);
    assert_eq!(rs[1].url.scheme, Scheme::Https);
    assert_eq!(rs[2].url.scheme, Scheme::Http);
    assert_eq!(rs[4].url.scheme, Scheme::Http);
    assert!(rs.iter().all(|r| r.method == Method::Head));
    assert!(rs.iter().all(|r| r.start_time.is_none() && r.timeout.is_none()));
    let none = generate_requests(&vec![], 5, Method::Get, &None);
    assert!(none.is_empty());
}

#[test]
fn content_options_prefer_text_over_length() {
    assert_eq!(
        content_from_options(Some(String::from("body")), Some(3)),
        Some(Content::Text(String::from("body")))
    );
    assert_eq!(content_from_options(None, Some(3)), Some(Content::Size(3)));
    assert_eq!(content_from_options(None, None), None);
}

#[test]
fn error_carries_kind_and_message() {
    let e = Error::other(String::from("connection refused"));
    assert_eq!(e.kind(), ErrorKind::Other);
    assert_eq!(e.message(), "connection refused");
    assert_eq!(Error::timeout().kind(), ErrorKind::Timeout);
    let e = Error::new(ErrorKind::Timeout, String::from("deadline"));
    assert_eq!(e.kind(), ErrorKind::Timeout);
}
