//! Requests: method, URL, body description, and the composition of the
//! request head that is written to a connection.

use vstd::prelude::*;
use vstd::string::StrSliceExecFns;
use vstd::string::StringExecFns;
use crate::time::Seconds;

verus! {

/// The HTTP methods the engine drives.
#[derive(Clone, Copy, Debug, PartialEq, Eq, Structural)]
pub enum Method {
    Put,
    Post,
    Get,
    Head,
    Delete,
}

impl Method {
    /// The method's uppercase name, as it appears on the wire.
    pub open spec fn spec_name(self) -> Seq<char> {
        match self {
            Method::Put => "PUT"@,
            Method::Post => "POST"@,
            Method::Get => "GET"@,
            Method::Head => "HEAD"@,
            Method::Delete => "DELETE"@,
        }
    }

    pub fn name(self) -> (r: &'static str)
        ensures
            r@ == self.spec_name(),
    {
        match self {
            Method::Put => "PUT",
            Method::Post => "POST",
            Method::Get => "GET",
            Method::Head => "HEAD",
            Method::Delete => "DELETE",
        }
    }

    /// Whether a request body is sent for this method; GET, HEAD and DELETE
    /// always send a zero-length body.
    pub open spec fn spec_carries_body(self) -> bool {
        self == Method::Post || self == Method::Put
    }

    pub fn carries_body(self) -> (r: bool)
        ensures
            r == self.spec_carries_body(),
    {
        match self {
            Method::Post | Method::Put => true,
            _ => false,
        }
    }
}

/// An optional request body: either literal text, or a size `n` meaning a
/// body of `n` zero bytes.
#[derive(Debug, PartialEq)]
pub enum Content {
    Size(usize),
    Text(String),
}

impl Clone for Content {
    fn clone(&self) -> (r: Self)
        ensures
            r == *self,
    {
        match self {
            Content::Size(n) => Content::Size(*n),
            Content::Text(t) => Content::Text(t.clone()),
        }
    }
}

impl Content {
    /// The bytes this content stands for.
    pub open spec fn spec_bytes(&self) -> Seq<u8> {
        match *self {
            Content::Size(n) => Seq::new(n as nat, |i: int| 0u8),
            Content::Text(t) => vstd::utf8::encode_utf8(t@),
        }
    }

    /// The body length in bytes.
    pub fn size(&self) -> (r: usize)
        ensures
            r == self.spec_bytes().len(),
    {
        match self {
            Content::Size(size) => {
                proof {
                    assert(self.spec_bytes() =~= Seq::new(*size as nat, |i: int| 0u8));
                }
                *size
            }
            Content::Text(text) => text.as_str().as_bytes().len(),
        }
    }

    /// The body bytes: `n` zero bytes, or the text's UTF-8 encoding.
    pub fn to_bytes(&self) -> (r: Vec<u8>)
        ensures
            r@ == self.spec_bytes(),
    {
        match self {
            Content::Size(size) => {
                let n = *size;
                let mut v: Vec<u8> = Vec::new();
                let mut i: usize = 0;
                while i < n
                    invariant
                        i <= n,
                        v@ =~= Seq::new(i as nat, |j: int| 0u8),
                    decreases n - i,
                {
                    v.push(0u8);
                    i += 1;
                }
                proof {
                    assert(v@ =~= self.spec_bytes());
                }
                v
            }
            Content::Text(text) => text.as_str().as_bytes_vec(),
        }
    }
}

#[derive(Clone, Copy, Debug, PartialEq, Eq, Structural)]
pub enum Scheme {
    Http,
    Https,
}

/// An absolute http or https URL, held as its parts. The path is the
/// URL-normalized form beginning with `/`; query and fragment are stored
/// without their leading `?` and `#`.
#[derive(Debug, PartialEq)]
pub struct Url {
    pub scheme: Scheme,
    pub host: String,
    pub port: Option<u16>,
    pub path: String,
    pub query: Option<String>,
    pub fragment: Option<String>,
}

fn clone_opt_string(s: &Option<String>) -> (r: Option<String>)
    ensures
        r == *s,
{
    match s {
        Option::Some(x) => Option::Some(x.clone()),
        Option::None => Option::None,
    }
}

impl Clone for Url {
    fn clone(&self) -> (r: Self)
        ensures
            r == *self,
    {
        Url {
            scheme: self.scheme,
            host: self.host.clone(),
            port: self.port,
            path: self.path.clone(),
            query: clone_opt_string(&self.query),
            fragment: clone_opt_string(&self.fragment),
        }
    }
}

impl Url {
    /// The port the request connects to: the URL's explicit port, or the
    /// scheme's default (80 for http, 443 for https).
    pub open spec fn spec_effective_port(&self) -> u16 {
        match self.port {
            Option::Some(p) => p,
            Option::None => match self.scheme {
                Scheme::Http => 80u16,
                Scheme::Https => 443u16,
            },
        }
    }

    pub fn effective_port(&self) -> (r: u16)
        ensures
            r == self.spec_effective_port(),
    {
        match self.port {
            Option::Some(p) => p,
            Option::None => match self.scheme {
                Scheme::Http => 80,
                Scheme::Https => 443,
            },
        }
    }
}

/// One benchmark request.
#[derive(Debug, PartialEq)]
pub struct Request {
    pub method: Method,
    pub url: Url,
    pub content: Option<Content>,
    /// Whole-call timeout.
    pub timeout: Option<Seconds>,
    /// Scheduled start, measured from the benchmark's start instant.
    pub start_time: Option<Seconds>,
}

impl Clone for Request {
    fn clone(&self) -> (r: Self)
        ensures
            r == *self,
    {
        Request {
            method: self.method,
            url: self.url.clone(),
            content: match &self.content {
                Option::Some(c) => Option::Some(c.clone()),
                Option::None => Option::None,
            },
            timeout: self.timeout,
            start_time: self.start_time,
        }
    }
}

/// Decimal digits of `n`, most significant first.
pub open spec fn spec_decimal(n: nat) -> Seq<char>
    decreases n,
{
    if n < 10 {
        seq![spec_decimal_digit(n)]
    } else {
        spec_decimal(n / 10).push(spec_decimal_digit(n % 10))
    }
}

pub open spec fn spec_decimal_digit(d: nat) -> char {
    if d == 0 {
        '0'
    } else if d == 1 {
        '1'
    } else if d == 2 {
        '2'
    } else if d == 3 {
        '3'
    } else if d == 4 {
        '4'
    } else if d == 5 {
        '5'
    } else if d == 6 {
        '6'
    } else if d == 7 {
        '7'
    } else if d == 8 {
        '8'
    } else {
        '9'
    }
}

pub(crate) fn decimal_digit_str(d: u64) -> (r: &'static str)
    requires
        d < 10,
    ensures
        r@ =~= seq![spec_decimal_digit(d as nat)],
{
    proof {
        reveal_strlit("0");
        reveal_strlit("1");
        reveal_strlit("2");
        reveal_strlit("3");
        reveal_strlit("4");
        reveal_strlit("5");
        reveal_strlit("6");
        reveal_strlit("7");
        reveal_strlit("8");
        reveal_strlit("9");
    }
    if d == 0 {
        "0"
    } else if d == 1 {
        "1"
    } else if d == 2 {
        "2"
    } else if d == 3 {
        "3"
    } else if d == 4 {
        "4"
    } else if d == 5 {
        "5"
    } else if d == 6 {
        "6"
    } else if d == 7 {
        "7"
    } else if d == 8 {
        "8"
    } else {
        "9"
    }
}

/// Formats `n` in decimal.
pub fn decimal_string(n: u64) -> (r: String)
    ensures
        r@ == spec_decimal(n as nat),
    decreases n,
{
    if n < 10 {
        String::from_str(decimal_digit_str(n))
    } else {
        let mut s = decimal_string(n / 10);
        s.append(decimal_digit_str(n % 10));
        proof {
            assert(s@ =~= spec_decimal(n as nat));
        }
        s
    }
}

impl Request {
    /// The endpoint this request connects to, as `host:port`. Resolving it to
    /// a socket address is the caller's concern.
    pub fn addr(&self) -> (r: String)
        ensures
            r@ == self.url.host@ + ":"@ + spec_decimal(
                self.url.spec_effective_port() as nat,
            ),
    {
        let mut s = self.url.host.clone();
        s.append(":");
        let port = decimal_string(self.url.effective_port() as u64);
        s.append(port.as_str());
        proof {
            assert(s@ =~= self.url.host@ + ":"@ + spec_decimal(
                self.url.spec_effective_port() as nat,
            ));
        }
        s
    }

    /// The request-line target: the path, plus `?query` and `#fragment` when
    /// present.
    pub open spec fn spec_path(&self) -> Seq<char> {
        self.url.path@ + (match self.url.query {
            Option::Some(q) => "?"@ + q@,
            Option::None => Seq::<char>::empty(),
        }) + (match self.url.fragment {
            Option::Some(f) => "#"@ + f@,
            Option::None => Seq::<char>::empty(),
        })
    }

    pub fn path(&self) -> (r: String)
        ensures
            r@ == self.spec_path(),
    {
        let mut s = self.url.path.clone();
        match &self.url.query {
            Option::Some(q) => {
                s.append("?");
                s.append(q.as_str());
            }
            Option::None => {}
        }
        match &self.url.fragment {
            Option::Some(f) => {
                s.append("#");
                s.append(f.as_str());
            }
            Option::None => {}
        }
        proof {
            assert(s@ =~= self.spec_path());
        }
        s
    }

    /// The bytes sent as the request body: the content's bytes for POST and
    /// PUT carrying content, and a zero-length body otherwise.
    pub open spec fn spec_body(&self) -> Seq<u8> {
        match self.content {
            Option::Some(c) => if self.method.spec_carries_body() {
                c.spec_bytes()
            } else {
                Seq::<u8>::empty()
            },
            Option::None => Seq::<u8>::empty(),
        }
    }

    pub fn body_bytes(&self) -> (r: Vec<u8>)
        ensures
            r@ == self.spec_body(),
    {
        match &self.content {
            Option::Some(c) => {
                if self.method.carries_body() {
                    c.to_bytes()
                } else {
                    Vec::new()
                }
            }
            Option::None => Vec::new(),
        }
    }

    /// The request head written to the connection: request line, `Host`
    /// header, and `Content-Length` header equal to the body's length.
    pub open spec fn spec_head(&self) -> Seq<char> {
        self.method.spec_name() + " "@ + self.spec_path() + " HTTP/1.1\r\nHost: "@
            + self.url.host@ + "\r\nContent-Length: "@ + spec_decimal(self.spec_body().len())
            + "\r\n\r\n"@
    }

    pub fn head(&self) -> (r: String)
        requires
            self.spec_body().len() <= u64::MAX,
        ensures
            r@ == self.spec_head(),
    {
        let mut s = String::from_str(self.method.name());
        s.append(" ");
        let path = self.path();
        s.append(path.as_str());
        s.append(" HTTP/1.1\r\nHost: ");
        s.append(self.url.host.as_str());
        s.append("\r\nContent-Length: ");
        let body = self.body_bytes();
        let len = decimal_string(body.len() as u64);
        s.append(len.as_str());
        s.append("\r\n\r\n");
        proof {
            assert(s@ =~= self.spec_head());
        }
        s
    }
}

/// The request list a URL-taking subcommand generates: the URL list cycled
/// until `n` requests exist, all sharing one method and content, with no
/// timeout and no scheduled start.
pub fn generate_requests(
    urls: &Vec<Url>,
    n: usize,
    method: Method,
    content: &Option<Content>,
) -> (r: Vec<Request>)
    ensures
        urls@.len() == 0 ==> r@.len() == 0,
        urls@.len() > 0 ==> r@.len() == n,
        forall|i: int|
            0 <= i < r@.len() ==> r@[i] == (Request {
                method,
                url: urls@[i % (urls@.len() as int)],
                content: *content,
                timeout: Option::<Seconds>::None,
                start_time: Option::<Seconds>::None,
            }),
{
    let mut r: Vec<Request> = Vec::new();
    if urls.len() == 0 {
        return r;
    }
    let mut i: usize = 0;
    while i < n
        invariant
            i <= n,
            urls@.len() > 0,
            r@.len() == i,
            forall|j: int|
                0 <= j < i ==> r@[j] == (Request {
                    method,
                    url: urls@[j % (urls@.len() as int)],
                    content: *content,
                    timeout: Option::<Seconds>::None,
                    start_time: Option::<Seconds>::None,
                }),
        decreases n - i,
    {
        let url = urls[i % urls.len()].clone();
        r.push(Request {
            method,
            url,
            content: match content {
                Option::Some(c) => Option::Some(c.clone()),
                Option::None => Option::None,
            },
            timeout: Option::None,
            start_time: Option::None,
        });
        i += 1;
    }
    r
}

/// The body a `post` or `put` subcommand carries: explicit text wins over a
/// zero-filled length; neither means no body.
pub fn content_from_options(text: Option<String>, length: Option<usize>) -> (r: Option<
    Content,
>)
    ensures
        r == (match text {
            Option::Some(t) => Option::Some(Content::Text(t)),
            Option::None => match length {
                Option::Some(n) => Option::Some(Content::Size(n)),
                Option::None => Option::<Content>::None,
            },
        }),
{
    match text {
        Option::Some(t) => Option::Some(Content::Text(t)),
        Option::None => match length {
            Option::Some(n) => Option::Some(Content::Size(n)),
            Option::None => Option::None,
        },
    }
}

} // verus!
