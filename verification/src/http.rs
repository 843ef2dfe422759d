//! HTTP response types: status codes, the response record and its exact
//! byte-level serialization.

use vstd::prelude::*;

use crate::json::{json_text, JsonVal, JsonValue};
use crate::text::{dec_digits, push_dec, push_str, string_of};

verus! {

broadcast use vstd::seq::group_seq_axioms;

/// Status classes a response can carry, one per fixed HTTP status produced.
#[derive(Clone, Copy, Debug, PartialEq, Eq, Structural)]
pub enum ResponseCode {
    Okay,
    NotFound,
    InternalError,
    BadRequest,
    Unauthorized,
    HeaderFieldsTooLarge,
}

impl ResponseCode {
    /// The reason phrase, as a sequence of characters.
    pub open spec fn reason_phrase(self) -> Seq<char> {
        match self {
            ResponseCode::Okay => "OK"@,
            ResponseCode::NotFound => "Not Found"@,
            ResponseCode::InternalError => "Internal Server Error"@,
            ResponseCode::BadRequest => "Bad Request"@,
            ResponseCode::Unauthorized => "Unauthorized"@,
            ResponseCode::HeaderFieldsTooLarge => "Header Fields Too Large"@,
        }
    }

    /// The numeric status, as an integer.
    pub open spec fn status_code(self) -> u16 {
        match self {
            ResponseCode::Okay => 200,
            ResponseCode::NotFound => 404,
            ResponseCode::InternalError => 500,
            ResponseCode::BadRequest => 400,
            ResponseCode::Unauthorized => 401,
            ResponseCode::HeaderFieldsTooLarge => 431,
        }
    }

    /// A bare response for this status: the status line and no headers.
    pub open spec fn bare_response_text(self) -> Seq<char> {
        match self {
            ResponseCode::Okay => "HTTP/1.1 200 OK\r\n\r\n"@,
            ResponseCode::NotFound => "HTTP/1.1 404 Not Found\r\n\r\n"@,
            ResponseCode::InternalError => "HTTP/1.1 500 Internal Server Error\r\n\r\n"@,
            ResponseCode::BadRequest => "HTTP/1.1 400 Bad Request\r\n\r\n"@,
            ResponseCode::Unauthorized => "HTTP/1.1 401 Unauthorized\r\n\r\n"@,
            ResponseCode::HeaderFieldsTooLarge => "HTTP/1.1 431 Header Fields Too Large\r\n\r\n"@,
        }
    }

    /// The fixed reason phrase for this status.
    pub fn to_str(&self) -> (r: &str)
        ensures
            r@ == self.reason_phrase(),
    {
        match self {
            ResponseCode::Okay => "OK",
            ResponseCode::NotFound => "Not Found",
            ResponseCode::InternalError => "Internal Server Error",
            ResponseCode::BadRequest => "Bad Request",
            ResponseCode::Unauthorized => "Unauthorized",
            ResponseCode::HeaderFieldsTooLarge => "Header Fields Too Large",
        }
    }

    /// The numeric HTTP status code.
    pub fn to_code(&self) -> (r: u16)
        ensures
            r == self.status_code(),
    {
        match self {
            ResponseCode::Okay => 200,
            ResponseCode::NotFound => 404,
            ResponseCode::InternalError => 500,
            ResponseCode::BadRequest => 400,
            ResponseCode::Unauthorized => 401,
            ResponseCode::HeaderFieldsTooLarge => 431,
        }
    }

    /// A bare response for this status, as wire bytes.
    pub fn to_bytes(&self) -> (r: Vec<u8>)
        ensures
            r@ == vstd::utf8::encode_utf8(self.bare_response_text()),
    {
        let s: &str = match self {
            ResponseCode::Okay => "HTTP/1.1 200 OK\r\n\r\n",
            ResponseCode::NotFound => "HTTP/1.1 404 Not Found\r\n\r\n",
            ResponseCode::InternalError => "HTTP/1.1 500 Internal Server Error\r\n\r\n",
            ResponseCode::BadRequest => "HTTP/1.1 400 Bad Request\r\n\r\n",
            ResponseCode::Unauthorized => "HTTP/1.1 401 Unauthorized\r\n\r\n",
            ResponseCode::HeaderFieldsTooLarge => "HTTP/1.1 431 Header Fields Too Large\r\n\r\n",
        };
        s.as_bytes_vec()
    }
}

/// One header as read off the wire.
pub struct PicoHeader {
    pub name: String,
    pub value: Vec<u8>,
}

/// A request in the middle of being assembled from the wire.
pub struct ManualRequest {
    pub method: Option<String>,
    pub path: Option<String>,
    pub version: Option<String>,
    pub headers: Vec<PicoHeader>,
}

impl ManualRequest {
    /// An empty request, nothing assembled yet.
    pub fn new() -> (r: Self)
        ensures
            r.method is None,
            r.path is None,
            r.version is None,
            r.headers@.len() == 0,
    {
        ManualRequest { method: None, path: None, version: None, headers: Vec::new() }
    }
}

/// The request line and headers, decoded from header text.
pub struct HttpRequest {
    pub method: String,
    pub path: String,
    pub version: String,
    pub headers: Vec<(String, Vec<String>)>,
}

/// A request body, classified by content type.
pub enum Body {
    Json(JsonValue),
    Form(Vec<(String, String)>),
    Raw(Vec<u8>),
}

/// A response: status, headers and body bytes.
pub struct PicoResponse {
    pub status: ResponseCode,
    pub body: Vec<u8>,
    pub headers: Vec<(String, Vec<String>)>,
}

/// The error document carried by an error response:
/// `{"error":{"code":<reason>,"message":<message>}}`.
pub open spec fn error_document(status: ResponseCode, message: Seq<char>) -> JsonVal {
    JsonVal::Obj(
        seq![
            (
                "error"@,
                JsonVal::Obj(
                    seq![
                        ("code"@, JsonVal::Str(status.reason_phrase())),
                        ("message"@, JsonVal::Str(message)),
                    ],
                ),
            ),
        ],
    )
}

/// The text of one header line: `name: v0; v1; ...`, or a bare line break
/// when the header has no values.
pub open spec fn header_line_text(k: Seq<char>, vs: Seq<Seq<char>>) -> Seq<char> {
    if vs.len() == 0 {
        "\r\n"@
    } else {
        k + ": "@ + vs[0] + extra_values_text(vs.drop_first()) + "\r\n"@
    }
}

/// The `; value` continuations of a header line.
pub open spec fn extra_values_text(vs: Seq<Seq<char>>) -> Seq<char>
    decreases vs.len(),
{
    if vs.len() == 0 {
        Seq::empty()
    } else {
        "; "@ + vs[0] + extra_values_text(vs.drop_first())
    }
}

/// The text of all header lines, in order.
pub open spec fn headers_text(hs: Seq<(Seq<char>, Seq<Seq<char>>)>) -> Seq<char>
    decreases hs.len(),
{
    if hs.len() == 0 {
        Seq::empty()
    } else {
        header_line_text(hs[0].0, hs[0].1) + headers_text(hs.drop_first())
    }
}

/// Append the `; value` continuations from index `j` on.
fn push_extra_values(values: &Vec<String>, j: usize, out: &mut Vec<char>)
    requires
        j <= values@.len(),
    ensures
        final(out)@ == old(out)@ + extra_values_text(
            values.deep_view().subrange(j as int, values@.len() as int),
        ),
    decreases values@.len() - j,
{
    let ghost tail = values.deep_view().subrange(j as int, values@.len() as int);
    if j < values.len() {
        push_str(out, "; ");
        push_str(out, values[j].as_str());
        push_extra_values(values, j + 1, out);
        proof {
            assert(tail[0] == values@[j as int]@);
            assert(tail.drop_first() =~= values.deep_view().subrange(
                j + 1,
                values@.len() as int,
            ));
            assert(out@ =~= old(out)@ + extra_values_text(tail));
        }
    } else {
        proof {
            assert(tail.len() == 0);
            assert(out@ =~= old(out)@ + extra_values_text(tail));
        }
    }
}

/// Append the header lines from index `i` on.
fn push_header_lines(headers: &Vec<(String, Vec<String>)>, i: usize, out: &mut Vec<char>)
    requires
        i <= headers@.len(),
    ensures
        final(out)@ == old(out)@ + headers_text(
            headers.deep_view().subrange(i as int, headers@.len() as int),
        ),
    decreases headers@.len() - i,
{
    let ghost tail = headers.deep_view().subrange(i as int, headers@.len() as int);
    if i < headers.len() {
        let ghost line = (headers@[i as int].0@, headers@[i as int].1.deep_view());
        proof {
            assert(tail[0] == line);
        }
        let values = &headers[i].1;
        if values.len() == 0 {
            push_str(out, "\r\n");
            proof {
                assert(header_line_text(line.0, line.1) == "\r\n"@);
            }
        } else {
            push_str(out, headers[i].0.as_str());
            push_str(out, ": ");
            push_str(out, values[0].as_str());
            proof {
                assert(values.deep_view()[0] == values@[0]@);
            }
            push_extra_values(values, 1, out);
            push_str(out, "\r\n");
            proof {
                assert(values.deep_view().subrange(1, values@.len() as int) =~= values
                    .deep_view()
                    .drop_first());
                assert(out@ =~= old(out)@ + header_line_text(line.0, line.1));
            }
        }
        let ghost mid = out@;
        push_header_lines(headers, i + 1, out);
        proof {
            assert(mid == old(out)@ + header_line_text(line.0, line.1));
            assert(tail.drop_first() =~= headers.deep_view().subrange(
                i + 1,
                headers@.len() as int,
            ));
            assert(out@ =~= old(out)@ + headers_text(tail));
        }
    } else {
        proof {
            assert(tail.len() == 0);
            assert(out@ =~= old(out)@ + headers_text(tail));
        }
    }
}

impl PicoResponse {
    /// The status line of this response.
    pub open spec fn status_line_text(self) -> Seq<char> {
        "HTTP/1.1 "@ + dec_digits(self.status.status_code() as nat) + " "@
            + self.status.reason_phrase() + "\r\n"@
    }

    /// Everything before the body: status line, header lines, blank line.
    pub open spec fn head_text(self) -> Seq<char> {
        self.status_line_text() + headers_text(self.headers.deep_view()) + "\r\n"@
    }

    /// A successful response carrying these bytes and no headers yet.
    pub fn success(body: Vec<u8>) -> (r: Self)
        ensures
            r.status == ResponseCode::Okay,
            r.body == body,
            r.headers@.len() == 0,
    {
        PicoResponse { status: ResponseCode::Okay, body, headers: Vec::new() }
    }

    /// An error response: the given status, and a JSON document naming the
    /// status and carrying the message.
    pub fn error(status: ResponseCode, message: &str) -> (r: Self)
        ensures
            r.status == status,
            r.body@ == vstd::utf8::encode_utf8(json_text(error_document(status, message@))),
            r.headers.deep_view() =~~= seq![("Content-Type"@, seq!["application/json"@])],
    {
        let mut inner: Vec<(String, JsonValue)> = Vec::new();
        inner.push((String::from_str("code"), JsonValue::Str(String::from_str(status.to_str()))));
        inner.push((
            String::from_str("message"),
            JsonValue::Str(String::from_str(message)),
        ));
        let ghost gi = inner@;
        let mut outer: Vec<(String, JsonValue)> = Vec::new();
        outer.push((String::from_str("error"), JsonValue::Object(inner)));
        let ghost go = outer@;
        let doc = JsonValue::Object(outer);
        proof {
            crate::json::lemma_view_obj(gi);
            crate::json::lemma_view_obj(go);
            assert(crate::json::view_obj(gi) =~= seq![
                ("code"@, JsonVal::Str(status.reason_phrase())),
                ("message"@, JsonVal::Str(message@)),
            ]);
            assert(crate::json::view_obj(go) =~= seq![
                ("error"@, JsonVal::Obj(crate::json::view_obj(gi))),
            ]);
            assert(doc@ == error_document(status, message@));
        }
        let text = crate::json::json_to_string(&doc);
        let mut headers: Vec<(String, Vec<String>)> = Vec::new();
        let mut ct: Vec<String> = Vec::new();
        ct.push(String::from_str("application/json"));
        headers.push((String::from_str("Content-Type"), ct));
        PicoResponse { status, body: text.as_str().as_bytes_vec(), headers }
    }

    /// The full wire bytes of this response.
    pub fn to_http_bytes(&self) -> (r: Vec<u8>)
        ensures
            r@ == vstd::utf8::encode_utf8(self.head_text()) + self.body@,
    {
        let mut out: Vec<char> = Vec::new();
        push_str(&mut out, "HTTP/1.1 ");
        push_dec(&mut out, self.status.to_code() as usize);
        push_str(&mut out, " ");
        push_str(&mut out, self.status.to_str());
        push_str(&mut out, "\r\n");
        proof {
            assert(out@ =~= self.status_line_text());
        }
        push_header_lines(&self.headers, 0, &mut out);
        push_str(&mut out, "\r\n");
        proof {
            assert(self.headers.deep_view().subrange(0, self.headers@.len() as int) =~= self
                .headers
                .deep_view());
            assert(out@ =~= self.head_text());
        }
        let head = string_of(out.as_slice());
        let mut r = head.as_str().as_bytes_vec();
        let ghost head_bytes = r@;
        let mut k: usize = 0;
        while k < self.body.len()
            invariant
                k <= self.body@.len(),
                r@ == head_bytes + self.body@.subrange(0, k as int),
            decreases self.body@.len() - k,
        {
            r.push(self.body[k]);
            k = k + 1;
            proof {
                assert(r@ =~= head_bytes + self.body@.subrange(0, k as int));
            }
        }
        proof {
            assert(r@ =~= vstd::utf8::encode_utf8(self.head_text()) + self.body@);
        }
        r
    }
}

} // verus!
