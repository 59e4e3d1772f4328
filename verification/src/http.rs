//! HTTP/1.1 request building: a request value with method, headers and an
//! optional body, and its serialization into the exact byte stream that the
//! wire carries. Writing those bytes to a socket happens outside the
//! library.

use vstd::prelude::*;
use vstd::string::StrSliceExecFns;
use vstd::string::StringExecFns;
use vstd::arithmetic::div_mod::lemma_div_decreases;
use vstd::arithmetic::div_mod::lemma_div_pos_is_pos;
use crate::response::pairs_view;

verus! {

/// The request methods the builder can serialize.
#[derive(Clone, Copy, PartialEq, Eq, Structural, Debug)]
pub enum Method {
    GET,
    POST,
    PUT,
    DELETE,
}

/// The request-line token of a method.
pub open spec fn method_text(m: Method) -> Seq<char> {
    match m {
        Method::GET => "GET"@,
        Method::POST => "POST"@,
        Method::PUT => "PUT"@,
        Method::DELETE => "DELETE"@,
    }
}

fn method_str(m: Method) -> (r: &'static str)
    ensures
        r@ == method_text(m),
{
    match m {
        Method::GET => "GET",
        Method::POST => "POST",
        Method::PUT => "PUT",
        Method::DELETE => "DELETE",
    }
}

/// The digit character of a value in [0, 9].
pub open spec fn dec_digit(n: int) -> char {
    if n == 0 {
        '0'
    } else if n == 1 {
        '1'
    } else if n == 2 {
        '2'
    } else if n == 3 {
        '3'
    } else if n == 4 {
        '4'
    } else if n == 5 {
        '5'
    } else if n == 6 {
        '6'
    } else if n == 7 {
        '7'
    } else if n == 8 {
        '8'
    } else {
        '9'
    }
}

/// The decimal digits of a non-negative value, most significant first.
pub open spec fn dec_str(n: int) -> Seq<char>
    decreases n,
    via dec_str_dec
{
    if n < 10 {
        seq![dec_digit(n)]
    } else {
        dec_str(n / 10) + seq![dec_digit(n % 10)]
    }
}

#[via_fn]
proof fn dec_str_dec(n: int) {
    if n >= 10 {
        lemma_div_pos_is_pos(n, 10);
        lemma_div_decreases(n, 10);
    }
}

fn digit_str(d: usize) -> (r: &'static str)
    requires
        d < 10,
    ensures
        r@ == seq![dec_digit(d as int)],
{
    let r: &'static str = match d {
        0 => "0",
        1 => "1",
        2 => "2",
        3 => "3",
        4 => "4",
        5 => "5",
        6 => "6",
        7 => "7",
        8 => "8",
        _ => "9",
    };
    proof {
        reveal_strlit("0");
        reveal_strlit("1");
        reveal_strlit("2");
        reveal_strlit("3");
        reveal_strlit("4");
        reveal_strlit("5");
        reveal_strlit("6");
        reveal_strlit("7");
        reveal_strlit("8");
        reveal_strlit("9");
        assert(r@ =~= seq![dec_digit(d as int)]);
    }
    r
}

/// A value's decimal digits, as text.
pub fn usize_dec_string(n: usize) -> (r: String)
    ensures
        r@ == dec_str(n as int),
    decreases n,
{
    if n < 10 {
        String::from_str(digit_str(n))
    } else {
        proof {
            lemma_div_pos_is_pos(n as int, 10);
            lemma_div_decreases(n as int, 10);
        }
        let mut s = usize_dec_string(n / 10);
        s.append(digit_str(n % 10));
        proof {
            assert(s@ =~= dec_str(n as int));
        }
        s
    }
}

/// The abstract value of a request.
pub struct ReqModel {
    pub method: Method,
    pub headers: Seq<(Seq<char>, Seq<char>)>,
    pub protocol_version: Seq<char>,
    pub body: Option<Seq<u8>>,
}

/// An HTTP request under construction: method, extra headers, optional
/// body. Content-Length is derived from the body, never stored.
pub struct HttpRequest {
    method: Method,
    headers: Vec<(String, String)>,
    protocol_version: String,
    body: Option<Vec<u8>>,
}

impl View for HttpRequest {
    type V = ReqModel;

    closed spec fn view(&self) -> ReqModel {
        ReqModel {
            method: self.method,
            headers: pairs_view(self.headers@),
            protocol_version: self.protocol_version@,
            body: match self.body {
                Some(b) => Some(b@),
                None => None,
            },
        }
    }
}

/// The body length a request advertises: its body's byte count, or zero
/// without a body.
pub open spec fn content_len(m: ReqModel) -> int {
    match m.body {
        Some(b) => b.len() as int,
        None => 0,
    }
}

/// The body bytes a request carries, empty without a body.
pub open spec fn body_view(m: ReqModel) -> Seq<u8> {
    match m.body {
        Some(b) => b,
        None => Seq::<u8>::empty(),
    }
}

/// One serialized header line.
pub open spec fn header_line_text(p: (Seq<char>, Seq<char>)) -> Seq<char> {
    p.0 + ": "@ + p.1 + "\r\n"@
}

/// The serialized header lines of a pair list, in order.
pub open spec fn headers_text(hs: Seq<(Seq<char>, Seq<char>)>) -> Seq<char>
    decreases hs.len(),
{
    if hs.len() == 0 {
        Seq::<char>::empty()
    } else {
        header_line_text(hs[0]) + headers_text(hs.drop_first())
    }
}

pub proof fn lemma_headers_text_push(hs: Seq<(Seq<char>, Seq<char>)>, p: (Seq<char>, Seq<char>))
    ensures
        headers_text(hs.push(p)) == headers_text(hs) + header_line_text(p),
    decreases hs.len(),
{
    if hs.len() == 0 {
        let e = Seq::<(Seq<char>, Seq<char>)>::empty();
        assert(hs.push(p).drop_first() =~= e);
        assert(headers_text(e) == Seq::<char>::empty());
        assert(hs =~= e);
        assert(headers_text(hs.push(p)) =~= headers_text(hs) + header_line_text(p));
    } else {
        assert(hs.push(p).drop_first() =~= hs.drop_first().push(p));
        lemma_headers_text_push(hs.drop_first(), p);
        assert(hs.push(p)[0] == hs[0]);
        assert(headers_text(hs.push(p)) == header_line_text(hs[0]) + (headers_text(hs.drop_first())
            + header_line_text(p)));
        assert(headers_text(hs.push(p)) =~= headers_text(hs) + header_line_text(p));
    }
}

/// The full text of the head of a serialized request: request line, Host,
/// the request's own headers, the derived Content-Length, the close marker,
/// and the blank line that ends the head.
pub open spec fn request_head_text(
    m: Method,
    path: Seq<char>,
    host: Seq<char>,
    hs: Seq<(Seq<char>, Seq<char>)>,
    clen: int,
) -> Seq<char> {
    method_text(m) + " "@ + path + " HTTP/1.1\r\n"@ + "Host: "@ + host + "\r\n"@ + headers_text(hs)
        + "Content-Length: "@ + dec_str(clen) + "\r\n"@ + "Connection: Close\r\n"@ + "\r\n"@
}

/// The byte stream a request serializes to: the head text in UTF-8, the raw
/// body bytes, and a trailing blank-line separator.
pub open spec fn request_bytes(m: ReqModel, host: Seq<char>, path: Seq<char>) -> Seq<u8> {
    vstd::utf8::encode_utf8(request_head_text(m.method, path, host, m.headers, content_len(m)))
        + body_view(m) + seq![13u8, 10u8, 13u8, 10u8]
}

impl HttpRequest {
    /// A fresh GET request with no headers and no body.
    pub fn new() -> (r: HttpRequest)
        ensures
            r@.method == Method::GET,
            r@.headers == Seq::<(Seq<char>, Seq<char>)>::empty(),
            r@.protocol_version == Seq::<char>::empty(),
            r@.body is None,
    {
        let r = HttpRequest {
            method: Method::GET,
            headers: Vec::new(),
            body: None,
            protocol_version: String::new(),
        };
        proof {
            assert(r@.headers =~= Seq::<(Seq<char>, Seq<char>)>::empty());
        }
        r
    }

    pub fn set_method(self, method: Method) -> (r: HttpRequest)
        ensures
            r@.method == method,
            r@.headers == self@.headers,
            r@.protocol_version == self@.protocol_version,
            r@.body == self@.body,
    {
        HttpRequest { method, ..self }
    }

    pub fn set_headers(self, headers: Vec<(String, String)>) -> (r: HttpRequest)
        ensures
            r@.method == self@.method,
            r@.headers == pairs_view(headers@),
            r@.protocol_version == self@.protocol_version,
            r@.body == self@.body,
    {
        HttpRequest { headers, ..self }
    }

    pub fn set_body(self, body: Vec<u8>) -> (r: HttpRequest)
        ensures
            r@.method == self@.method,
            r@.headers == self@.headers,
            r@.protocol_version == self@.protocol_version,
            r@.body == Some(body@),
    {
        HttpRequest { body: Some(body), ..self }
    }

    pub fn get_headers(&self) -> (r: &Vec<(String, String)>)
        ensures
            pairs_view(r@) == self@.headers,
    {
        &self.headers
    }

    pub fn get_body(&self) -> (r: &Option<Vec<u8>>)
        ensures
            match r {
                Some(b) => self@.body == Some(b@),
                None => self@.body is None,
            },
    {
        &self.body
    }

    /// The derived Content-Length value.
    pub fn get_content_length(&self) -> (r: usize)
        ensures
            r as int == content_len(self@),
    {
        match &self.body {
            Some(body) => body.len(),
            None => 0,
        }
    }

    /// Serializes this request for `host` and `path` into the bytes written
    /// to the wire, HTTP/1.1 framing included.
    pub fn serialize(&self, host: &str, path: &str) -> (r: Vec<u8>)
        ensures
            r@ == request_bytes(self@, host@, path@),
    {
        let mut head = String::new();
        head.append(method_str(self.method));
        head.append(" ");
        head.append(path);
        head.append(" HTTP/1.1\r\n");
        head.append("Host: ");
        head.append(host);
        head.append("\r\n");
        let ghost pre = head@;
        let ghost hv = pairs_view(self.headers@);
        proof {
            assert(head@ =~= pre + headers_text(hv.take(0))) by {
                assert(hv.take(0) =~= Seq::<(Seq<char>, Seq<char>)>::empty());
            }
        }
        let mut idx: usize = 0;
        while idx < self.headers.len()
            invariant
                0 <= idx <= self.headers@.len(),
                hv == pairs_view(self.headers@),
                head@ == pre + headers_text(hv.take(idx as int)),
            decreases self.headers@.len() - idx,
        {
            let pair = &self.headers[idx];
            head.append(pair.0.as_str());
            head.append(": ");
            head.append(pair.1.as_str());
            head.append("\r\n");
            proof {
                assert(hv.take(idx + 1) =~= hv.take(idx as int).push(hv[idx as int]));
                lemma_headers_text_push(hv.take(idx as int), hv[idx as int]);
                assert(hv[idx as int] == (pair.0@, pair.1@));
                assert(head@ =~= pre + headers_text(hv.take(idx + 1)));
            }
            idx += 1;
        }
        proof {
            assert(hv.take(self.headers@.len() as int) =~= hv);
        }
        head.append("Content-Length: ");
        let cl = usize_dec_string(self.get_content_length());
        head.append(cl.as_str());
        head.append("\r\n");
        head.append("Connection: Close\r\n");
        head.append("\r\n");
        proof {
            assert(head@ =~= request_head_text(
                self@.method,
                path@,
                host@,
                self@.headers,
                content_len(self@),
            ));
        }
        let mut out = head.as_str().as_bytes_vec();
        match &self.body {
            Some(b) => {
                let ghost base = out@;
                let mut k: usize = 0;
                while k < b.len()
                    invariant
                        0 <= k <= b@.len(),
                        out@ == base + b@.take(k as int),
                    decreases b@.len() - k,
                {
                    out.push(b[k]);
                    proof {
                        assert(out@ =~= base + b@.take(k + 1));
                    }
                    k += 1;
                }
                proof {
                    assert(b@.take(b@.len() as int) =~= b@);
                }
            },
            None => {
                proof {
                    assert(out@ =~= out@ + body_view(self@));
                }
            },
        }
        out.push(13u8);
        out.push(10u8);
        out.push(13u8);
        out.push(10u8);
        proof {
            assert(out@ =~= request_bytes(self@, host@, path@));
        }
        out
    }
}

} // verus!
