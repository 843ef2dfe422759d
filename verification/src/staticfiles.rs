//! The static-file fallback: turning a request path into a file path under
//! the public directory, and framing the file's bytes as a response.
//!
//! Reading the file itself is outside the library; everything around it —
//! percent-decoding, the traversal check, the content type, the response
//! bytes — is verified code.

use vstd::prelude::*;

use crate::text::{chars_of, push_dec, push_str, string_of};

verus! {

broadcast use vstd::seq::group_seq_axioms;

// ------------------------------------------------------------------
// Percent-decoding
// ------------------------------------------------------------------

/// Whether a byte is an ASCII hexadecimal digit.
pub open spec fn is_hex(b: u8) -> bool {
    (48 <= b <= 57) || (65 <= b <= 70) || (97 <= b <= 102)
}

/// The value of a hexadecimal digit.
pub open spec fn hex_val(b: u8) -> u8 {
    if 48 <= b <= 57 {
        (b - 48) as u8
    } else if 65 <= b <= 70 {
        (b - 55) as u8
    } else if 97 <= b <= 102 {
        (b - 87) as u8
    } else {
        0
    }
}

/// Percent-decoding: each `%` followed by two hexadecimal digits becomes
/// one byte; anything else passes through.
pub open spec fn pct_decode(b: Seq<u8>) -> Seq<u8>
    decreases b.len(),
{
    if b.len() == 0 {
        Seq::empty()
    } else if b[0] == 37 && b.len() >= 3 && is_hex(b[1]) && is_hex(b[2]) {
        seq![(hex_val(b[1]) * 16 + hex_val(b[2])) as u8] + pct_decode(b.skip(3))
    } else {
        seq![b[0]] + pct_decode(b.skip(1))
    }
}

/// Whether a byte is an ASCII hexadecimal digit.
fn is_hex_exec(b: u8) -> (r: bool)
    ensures
        r == is_hex(b),
{
    (48 <= b && b <= 57) || (65 <= b && b <= 70) || (97 <= b && b <= 102)
}

/// The value of a hexadecimal digit.
fn hex_val_exec(b: u8) -> (r: u8)
    ensures
        r == hex_val(b),
{
    if 48 <= b && b <= 57 {
        b - 48
    } else if 65 <= b && b <= 70 {
        b - 55
    } else if 97 <= b && b <= 102 {
        b - 87
    } else {
        0
    }
}

/// Percent-decode from position `i` on.
fn pct_decode_from(v: &[u8], i: usize, out: &mut Vec<u8>)
    requires
        i <= v@.len(),
    ensures
        final(out)@ == old(out)@ + pct_decode(v@.skip(i as int)),
    decreases v@.len() - i,
{
    let ghost rest = v@.skip(i as int);
    if i == v.len() {
        proof {
            assert(rest.len() == 0);
            assert(out@ =~= old(out)@ + pct_decode(rest));
        }
    } else if v[i] == 37 && v.len() - i >= 3 && is_hex_exec(v[i + 1]) && is_hex_exec(v[i + 2]) {
        proof {
            assert(rest[0] == v@[i as int]);
            assert(rest[1] == v@[i + 1]);
            assert(rest[2] == v@[i + 2]);
        }
        let b = hex_val_exec(v[i + 1]) * 16 + hex_val_exec(v[i + 2]);
        out.push(b);
        pct_decode_from(v, i + 3, out);
        proof {
            assert(rest.skip(3) =~= v@.skip(i + 3));
            assert(out@ =~= old(out)@ + pct_decode(rest));
        }
    } else {
        proof {
            assert(rest[0] == v@[i as int]);
            if rest[0] == 37 && rest.len() >= 3 {
                assert(rest[1] == v@[i + 1]);
                assert(rest[2] == v@[i + 2]);
            }
        }
        out.push(v[i]);
        pct_decode_from(v, i + 1, out);
        proof {
            assert(rest.skip(1) =~= v@.skip(i + 1));
            assert(out@ =~= old(out)@ + pct_decode(rest));
        }
    }
}

/// Relies on `String::from_utf8`: succeeds exactly on valid UTF-8 and
/// decodes it.
#[verifier::external_body]
pub fn bytes_to_string(v: Vec<u8>) -> (r: Option<String>)
    ensures
        r matches Some(s) ==> vstd::utf8::valid_utf8(v@) && s@ == vstd::utf8::decode_utf8(v@),
        r is None ==> !vstd::utf8::valid_utf8(v@),
{
    String::from_utf8(v).ok()
}

// ------------------------------------------------------------------
// The traversal check and the file path
// ------------------------------------------------------------------

/// Whether the text holds two dots in a row somewhere.
pub open spec fn has_dotdot(s: Seq<char>) -> bool {
    exists|i: int| 0 <= i && i + 2 <= s.len() && (#[trigger] s[i]) == '.' && s[i + 1] == '.'
}

/// Whether the text holds two dots in a row somewhere.
fn has_dotdot_exec(v: &[char]) -> (r: bool)
    ensures
        r == has_dotdot(v@),
{
    if v.len() < 2 {
        proof {
            assert(!has_dotdot(v@));
        }
        return false;
    }
    let mut i: usize = 0;
    while i <= v.len() - 2
        invariant
            v@.len() >= 2,
            i <= v@.len() - 1,
            forall|j: int| 0 <= j < i ==> !((#[trigger] v@[j]) == '.' && v@[j + 1] == '.'),
        decreases v@.len() - i,
    {
        if v[i] == '.' && v[i + 1] == '.' {
            return true;
        }
        i = i + 1;
    }
    proof {
        assert forall|j: int| true implies !(0 <= j && j + 2 <= v@.len() && (#[trigger] v@[j])
            == '.' && v@[j + 1] == '.') by {
            if 0 <= j && j + 2 <= v@.len() {
                assert(j < i);
            }
        }
    }
    false
}

/// What the percent-decoded path text is, when the decoded bytes are valid
/// UTF-8.
pub open spec fn decoded_path_of(path: Seq<char>) -> Seq<char> {
    vstd::utf8::decode_utf8(pct_decode(vstd::utf8::encode_utf8(path)))
}

/// The file path the static fallback serves for a request path, or the
/// failure: undecodable paths are bad requests, paths holding `..` before
/// or after decoding are treated as absent files.
pub open spec fn static_path_of(path: Seq<char>) -> Result<Seq<char>, crate::http::ResponseCode> {
    if !vstd::utf8::valid_utf8(pct_decode(vstd::utf8::encode_utf8(path))) {
        Err(crate::http::ResponseCode::BadRequest)
    } else {
        let d = decoded_path_of(path);
        if has_dotdot(path) || has_dotdot(d) {
            Err(crate::http::ResponseCode::NotFound)
        } else {
            let base = if d.len() > 0 && d[0] == '/' {
                "public"@ + d
            } else {
                "public/"@ + d
            };
            if d.len() > 0 && d.last() == '/' {
                Ok(base + "index.html"@)
            } else {
                Ok(base)
            }
        }
    }
}

/// The file path under the public directory for a request path.
pub fn resolve_static_path(path: &str) -> (r: Result<String, crate::http::ResponseCode>)
    ensures
        match (r, static_path_of(path@)) {
            (Ok(p), Ok(q)) => p@ == q,
            (Err(c), Err(d)) => c == d,
            _ => false,
        },
{
    let raw = path.as_bytes_vec();
    proof {
        assert(raw@ == vstd::utf8::encode_utf8(path@));
    }
    let mut decoded_bytes: Vec<u8> = Vec::new();
    pct_decode_from(raw.as_slice(), 0, &mut decoded_bytes);
    proof {
        assert(raw@.skip(0) =~= raw@);
    }
    let decoded = match bytes_to_string(decoded_bytes) {
        Some(s) => s,
        None => {
            return Err(crate::http::ResponseCode::BadRequest);
        }
    };
    let pc = chars_of(path);
    let dc = chars_of(decoded.as_str());
    if has_dotdot_exec(pc.as_slice()) || has_dotdot_exec(dc.as_slice()) {
        return Err(crate::http::ResponseCode::NotFound);
    }
    let mut out: Vec<char> = Vec::new();
    push_str(&mut out, "public");
    if !(dc.len() > 0 && dc[0] == '/') {
        push_str(&mut out, "/");
        proof {
            reveal_strlit("public");
            reveal_strlit("public/");
            reveal_strlit("/");
            assert(out@ =~= "public/"@);
        }
    }
    let mut k: usize = 0;
    let ghost base0 = out@;
    while k < dc.len()
        invariant
            k <= dc@.len(),
            out@ == base0 + dc@.subrange(0, k as int),
        decreases dc@.len() - k,
    {
        out.push(dc[k]);
        k = k + 1;
        proof {
            assert(out@ =~= base0 + dc@.subrange(0, k as int));
        }
    }
    proof {
        assert(dc@.subrange(0, dc@.len() as int) =~= dc@);
    }
    if dc.len() > 0 && dc[dc.len() - 1] == '/' {
        push_str(&mut out, "index.html");
    }
    Ok(string_of(out.as_slice()))
}

// ------------------------------------------------------------------
// Content types
// ------------------------------------------------------------------

/// The greatest index holding `c`, or minus one.
pub open spec fn last_ix(s: Seq<char>, c: char) -> int
    decreases s.len(),
{
    if s.len() == 0 {
        -1
    } else if s.last() == c {
        s.len() - 1
    } else {
        last_ix(s.drop_last(), c)
    }
}

proof fn lemma_last_ix(s: Seq<char>, c: char)
    ensures
        -1 <= last_ix(s, c) < s.len(),
        last_ix(s, c) >= 0 ==> s[last_ix(s, c)] == c,
        forall|j: int| last_ix(s, c) < j < s.len() ==> s[j] != c,
    decreases s.len(),
{
    if s.len() != 0 && s.last() != c {
        lemma_last_ix(s.drop_last(), c);
        if last_ix(s, c) >= 0 {
            assert(s.drop_last()[last_ix(s, c)] == s[last_ix(s, c)]);
        }
        assert forall|j: int| last_ix(s, c) < j < s.len() implies s[j] != c by {
            if j < s.len() - 1 {
                assert(s.drop_last()[j] == s[j]);
            }
        }
    }
}

/// The file name: everything after the last slash.
pub open spec fn file_name_of(path: Seq<char>) -> Seq<char> {
    path.skip(last_ix(path, '/') + 1)
}

/// The extension: the part of the file name after its last dot, none when
/// there is no dot or the dot starts the name.
pub open spec fn extension_of(path: Seq<char>) -> Option<Seq<char>> {
    let name = file_name_of(path);
    let d = last_ix(name, '.');
    if d <= 0 {
        None
    } else {
        Some(name.skip(d + 1))
    }
}

/// The content type served for a file, by its extension.
pub open spec fn mime_of(path: Seq<char>) -> Seq<char> {
    match extension_of(path) {
        Some(e) => mime_of_ext(e),
        None => "application/octet-stream"@,
    }
}

/// The content type for one extension.
pub open spec fn mime_of_ext(e: Seq<char>) -> Seq<char> {
    if e == "html"@ {
        "text/html"@
    } else if e == "css"@ {
        "text/css"@
    } else if e == "js"@ {
        "application/javascript"@
    } else if e == "png"@ {
        "image/png"@
    } else if e == "jpg"@ || e == "jpeg"@ {
        "image/jpeg"@
    } else if e == "gif"@ {
        "image/gif"@
    } else if e == "svg"@ {
        "image/svg+xml"@
    } else if e == "json"@ {
        "application/json"@
    } else if e == "txt"@ {
        "text/plain"@
    } else if e == "ico"@ {
        "image/x-icon"@
    } else if e == "woff"@ {
        "font/woff"@
    } else if e == "woff2"@ {
        "font/woff2"@
    } else if e == "ttf"@ {
        "font/ttf"@
    } else if e == "otf"@ {
        "font/otf"@
    } else {
        "application/octet-stream"@
    }
}

/// The greatest index holding `c`, if any.
fn find_last(v: &[char], c: char) -> (r: Option<usize>)
    ensures
        match r {
            Some(i) => i < v@.len() && last_ix(v@, c) == i as int,
            None => last_ix(v@, c) == -1,
        },
{
    proof {
        lemma_last_ix(v@, c);
    }
    let mut i: usize = v.len();
    while i > 0
        invariant
            i <= v@.len(),
            forall|j: int| i <= j < v@.len() ==> v@[j] != c,
        decreases i,
    {
        i = i - 1;
        if v[i] == c {
            proof {
                lemma_last_ix(v@, c);
                assert(last_ix(v@, c) == i as int) by {
                    if last_ix(v@, c) > i {
                        assert(v@[last_ix(v@, c)] != c);
                    }
                    if last_ix(v@, c) < i {
                        assert(v@[i as int] != c);
                    }
                }
            }
            return Some(i);
        }
    }
    proof {
        if last_ix(v@, c) >= 0 {
            assert(v@[last_ix(v@, c)] != c);
        }
    }
    None
}

/// The content type for a file, based on its extension.
pub fn get_mime_type(file_path: &str) -> (r: &'static str)
    ensures
        r@ == mime_of(file_path@),
{
    let cs = chars_of(file_path);
    let n: usize = cs.len();
    let name_start: usize = match find_last(cs.as_slice(), '/') {
        Some(i) => {
            proof {
                assert(i < n);
            }
            i + 1
        }
        None => 0,
    };
    let name = crate::wire::copy_range(cs.as_slice(), name_start, cs.len());
    proof {
        assert(name@ =~= file_name_of(file_path@));
    }
    let ext: Option<Vec<char>> = match find_last(name.as_slice(), '.') {
        Some(d) => {
            if d == 0 {
                None
            } else {
                proof {
                    assert(d < name@.len());
                    assert(name@.len() <= n);
                }
                let e = crate::wire::copy_range(name.as_slice(), d + 1, name.len());
                proof {
                    assert(e@ =~= file_name_of(file_path@).skip(
                        last_ix(file_name_of(file_path@), '.') + 1,
                    ));
                }
                Some(e)
            }
        }
        None => None,
    };
    match ext {
        Some(e) => {
            if crate::text::chars_eq_str(e.as_slice(), "html") {
                "text/html"
            } else if crate::text::chars_eq_str(e.as_slice(), "css") {
                "text/css"
            } else if crate::text::chars_eq_str(e.as_slice(), "js") {
                "application/javascript"
            } else if crate::text::chars_eq_str(e.as_slice(), "png") {
                "image/png"
            } else if crate::text::chars_eq_str(e.as_slice(), "jpg") {
                "image/jpeg"
            } else if crate::text::chars_eq_str(e.as_slice(), "jpeg") {
                "image/jpeg"
            } else if crate::text::chars_eq_str(e.as_slice(), "gif") {
                "image/gif"
            } else if crate::text::chars_eq_str(e.as_slice(), "svg") {
                "image/svg+xml"
            } else if crate::text::chars_eq_str(e.as_slice(), "json") {
                "application/json"
            } else if crate::text::chars_eq_str(e.as_slice(), "txt") {
                "text/plain"
            } else if crate::text::chars_eq_str(e.as_slice(), "ico") {
                "image/x-icon"
            } else if crate::text::chars_eq_str(e.as_slice(), "woff") {
                "font/woff"
            } else if crate::text::chars_eq_str(e.as_slice(), "woff2") {
                "font/woff2"
            } else if crate::text::chars_eq_str(e.as_slice(), "ttf") {
                "font/ttf"
            } else if crate::text::chars_eq_str(e.as_slice(), "otf") {
                "font/otf"
            } else {
                "application/octet-stream"
            }
        }
        None => "application/octet-stream",
    }
}

/// The head of a static-file response.
pub open spec fn static_response_text(path: Seq<char>, len: nat) -> Seq<char> {
    "HTTP/1.1 200 OK\r\nContent-Type: "@ + mime_of(path) + "\r\nContent-Length: "@
        + crate::text::dec_digits(len) + "\r\n\r\n"@
}

/// Frame a static file's bytes as a complete response.
pub fn build_static_response(file_path: &str, contents: Vec<u8>) -> (r: Vec<u8>)
    ensures
        r@ == vstd::utf8::encode_utf8(static_response_text(file_path@, contents@.len()))
            + contents@,
{
    let mut head: Vec<char> = Vec::new();
    push_str(&mut head, "HTTP/1.1 200 OK\r\nContent-Type: ");
    push_str(&mut head, get_mime_type(file_path));
    push_str(&mut head, "\r\nContent-Length: ");
    push_dec(&mut head, contents.len());
    push_str(&mut head, "\r\n\r\n");
    proof {
        assert(head@ =~= static_response_text(file_path@, contents@.len()));
    }
    let hs = string_of(head.as_slice());
    let mut r = hs.as_str().as_bytes_vec();
    let ghost hb = r@;
    let mut k: usize = 0;
    while k < contents.len()
        invariant
            k <= contents@.len(),
            r@ == hb + contents@.subrange(0, k as int),
        decreases contents@.len() - k,
    {
        r.push(contents[k]);
        k = k + 1;
        proof {
            assert(r@ =~= hb + contents@.subrange(0, k as int));
        }
    }
    proof {
        assert(r@ =~= vstd::utf8::encode_utf8(static_response_text(file_path@, contents@.len()))
            + contents@);
    }
    r
}

} // verus!
