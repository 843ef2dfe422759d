//! The wire reader: frames an HTTP/1.1 request out of raw bytes.
//!
//! The caller feeds accumulated bytes through `header_scan` until the blank
//! line arrives, then hands the header bytes and the body bytes over;
//! everything decided about them — request line, header folding, content
//! length, body classification, query parsing — is verified code.

use vstd::prelude::*;

use crate::http::{Body, HttpRequest, ResponseCode};
use crate::json::JsonValue;
use crate::route::{views_of, Method};
use crate::text::{
    chars_of, is_ws, lower_chars, lower_seq, string_of, trim_chars, trim_seq,
};

verus! {

broadcast use vstd::seq::group_seq_axioms;

/// How much is read from the socket at a time.
pub const STREAM_BUFFER_SIZE: usize = 8192;

/// The ceiling on accumulated header bytes.
pub const MAX_HEADER_SIZE: usize = 1024;

// ------------------------------------------------------------------
// Finding the end of the headers
// ------------------------------------------------------------------

/// Whether the blank-line terminator sits at position `i`.
pub open spec fn crlf2_at(b: Seq<u8>, i: int) -> bool {
    &&& 0 <= i
    &&& i + 4 <= b.len()
    &&& b[i] == 13
    &&& b[i + 1] == 10
    &&& b[i + 2] == 13
    &&& b[i + 3] == 10
}

/// Whether the terminator appears anywhere.
pub open spec fn has_crlf2(b: Seq<u8>) -> bool {
    exists|i: int| crlf2_at(b, i)
}

/// The first terminator position, if any.
pub fn find_header_end(b: &[u8]) -> (r: Option<usize>)
    ensures
        match r {
            Some(i) => crlf2_at(b@, i as int) && forall|j: int| 0 <= j < i ==> !crlf2_at(b@, j),
            None => !has_crlf2(b@),
        },
{
    let n: usize = b.len();
    if n < 4 {
        return None;
    }
    let mut i: usize = 0;
    while i <= n - 4
        invariant
            4 <= n,
            n == b@.len(),
            i <= n - 3,
            forall|j: int| 0 <= j < i ==> !crlf2_at(b@, j),
        decreases n - i,
    {
        if b[i] == 13 && b[i + 1] == 10 && b[i + 2] == 13 && b[i + 3] == 10 {
            return Some(i);
        }
        i = i + 1;
    }
    proof {
        assert forall|j: int| true implies !crlf2_at(b@, j) by {
            if 0 <= j && j + 4 <= b@.len() {
                assert(j < i);
            }
        }
    }
    None
}

/// What the reader does with the bytes collected so far.
pub enum ScanStep {
    /// No terminator yet and the ceiling not reached: keep reading.
    NeedMore,
    /// No terminator and the buffer exceeds the ceiling.
    TooLarge,
    /// The terminator was found; headers end at this position, terminator
    /// included.
    Complete(usize),
}

/// One framing decision, exactly as the reader takes it: the terminator is
/// looked for first, so an oversized buffer without one — whatever any
/// declared content length says — is refused as header overflow, never as a
/// bad request.
pub fn header_scan(buf: &[u8]) -> (r: ScanStep)
    ensures
        match r {
            ScanStep::Complete(e) => has_crlf2(buf@) && 4 <= e <= buf@.len() && crlf2_at(
                buf@,
                e - 4,
            ) && forall|j: int| 0 <= j < e - 4 ==> !crlf2_at(buf@, j),
            ScanStep::TooLarge => !has_crlf2(buf@) && buf@.len() > MAX_HEADER_SIZE,
            ScanStep::NeedMore => !has_crlf2(buf@) && buf@.len() <= MAX_HEADER_SIZE,
        },
{
    let n: usize = buf.len();
    match find_header_end(buf) {
        Some(i) => {
            proof {
                assert(i + 4 <= n);
            }
            ScanStep::Complete(i + 4)
        }
        None => {
            if buf.len() > MAX_HEADER_SIZE {
                ScanStep::TooLarge
            } else {
                ScanStep::NeedMore
            }
        }
    }
}

// ------------------------------------------------------------------
// Lines of the header text
// ------------------------------------------------------------------

/// The bytes of the header block, decoded to text. Relies on
/// `String::from_utf8_lossy`: the text is a function of the bytes alone,
/// and valid UTF-8 passes through unchanged.
#[verifier::external_body]
pub fn utf8_lossy(b: &[u8]) -> (r: String)
    ensures
        r@ == utf8_lossy_of(b@),
        vstd::utf8::valid_utf8(b@) ==> r@ == vstd::utf8::decode_utf8(b@),
{
    String::from_utf8_lossy(b).into_owned()
}

/// What lossy UTF-8 decoding makes of any byte sequence.
pub uninterp spec fn utf8_lossy_of(b: Seq<u8>) -> Seq<char>;

/// The length of the leading run without a line feed.
pub open spec fn nl_len(s: Seq<char>) -> int
    decreases s.len(),
{
    if s.len() == 0 || s[0] == '\n' {
        0
    } else {
        1 + nl_len(s.drop_first())
    }
}

pub proof fn lemma_nl_len_bounds(s: Seq<char>)
    ensures
        0 <= nl_len(s) <= s.len(),
        forall|i: int| 0 <= i < nl_len(s) ==> s[i] != '\n',
        nl_len(s) < s.len() ==> s[nl_len(s)] == '\n',
    decreases s.len(),
{
    if s.len() != 0 && s[0] != '\n' {
        lemma_nl_len_bounds(s.drop_first());
        assert forall|i: int| 0 <= i < nl_len(s) implies s[i] != '\n' by {
            if i > 0 {
                assert(s.drop_first()[i - 1] == s[i]);
            }
        }
        if nl_len(s) < s.len() {
            assert(s.drop_first()[nl_len(s) - 1] == s[nl_len(s)]);
        }
    }
}

/// The text split on line feeds, every piece kept.
pub open spec fn raw_lines(s: Seq<char>) -> Seq<Seq<char>>
    decreases s.len(),
    via raw_lines_dec
{
    let k = nl_len(s);
    if k == s.len() {
        seq![s]
    } else {
        seq![s.subrange(0, k)] + raw_lines(s.skip(k + 1))
    }
}

#[via_fn]
proof fn raw_lines_dec(s: Seq<char>) {
    lemma_nl_len_bounds(s);
}

/// A line with one trailing carriage return removed.
pub open spec fn strip_cr(l: Seq<char>) -> Seq<char> {
    if l.len() > 0 && l.last() == '\r' {
        l.drop_last()
    } else {
        l
    }
}

/// The lines of the header text, as `str::lines` yields them: split on
/// line feeds, a final empty piece dropped, one trailing carriage return
/// removed from each line.
pub open spec fn lines_of(s: Seq<char>) -> Seq<Seq<char>> {
    let rl = raw_lines(s);
    let kept = if rl.len() > 0 && rl.last().len() == 0 {
        rl.drop_last()
    } else {
        rl
    };
    Seq::new(kept.len(), |i: int| strip_cr(kept[i]))
}

/// Split the text on line feeds from position `i` on, keeping every piece.
fn raw_lines_from(v: &[char], i: usize, out: &mut Vec<Vec<char>>)
    requires
        i <= v@.len(),
    ensures
        views_of(final(out)@) == views_of(old(out)@) + raw_lines(v@.skip(i as int)),
    decreases v@.len() - i,
{
    let ghost rest = v@.skip(i as int);
    let mut j: usize = i;
    let mut cur: Vec<char> = Vec::new();
    while j < v.len() && v[j] != '\n'
        invariant
            i <= j <= v@.len(),
            forall|m: int| i <= m < j ==> v@[m] != '\n',
            cur@ == v@.subrange(i as int, j as int),
        decreases v@.len() - j,
    {
        cur.push(v[j]);
        j = j + 1;
        proof {
            assert(cur@ =~= v@.subrange(i as int, j as int));
        }
    }
    proof {
        lemma_nl_len_bounds(rest);
        assert forall|m: int| 0 <= m < j - i implies rest[m] != '\n' by {
            assert(rest[m] == v@[i + m]);
        }
        if (j as int) < v@.len() {
            assert(rest[j - i] == v@[j as int]);
        }
        assert(nl_len(rest) == j - i) by {
            if nl_len(rest) < j - i {
                assert(rest[nl_len(rest)] == '\n');
                assert(rest[nl_len(rest)] != '\n');
            } else if nl_len(rest) > j - i {
                assert(rest[j - i] != '\n');
                assert((j as int) < v@.len());
            }
        }
        assert(cur@ =~= rest.subrange(0, nl_len(rest)));
    }
    let ghost before = views_of(out@);
    let ghost curv = cur@;
    out.push(cur);
    proof {
        assert(views_of(out@) =~= before.push(curv));
    }
    if j == v.len() {
        proof {
            assert(nl_len(rest) == rest.len());
            assert(raw_lines(rest) == seq![rest]);
            assert(rest.subrange(0, nl_len(rest)) =~= rest);
            assert(views_of(out@) =~= views_of(old(out)@) + raw_lines(rest));
        }
    } else {
        raw_lines_from(v, j + 1, out);
        proof {
            assert(rest.skip(nl_len(rest) + 1) =~= v@.skip(j + 1));
            assert(raw_lines(rest) == seq![rest.subrange(0, nl_len(rest))] + raw_lines(
                rest.skip(nl_len(rest) + 1),
            ));
            assert(views_of(out@) =~= views_of(old(out)@) + raw_lines(rest));
        }
    }
}

/// The lines of the header text.
pub fn split_lines(v: &[char]) -> (r: Vec<Vec<char>>)
    ensures
        views_of(r@) == lines_of(v@),
{
    let mut raw: Vec<Vec<char>> = Vec::new();
    raw_lines_from(v, 0, &mut raw);
    proof {
        assert(v@.skip(0) =~= v@);
        assert(views_of(raw@) =~= raw_lines(v@));
    }
    let ghost rl = raw_lines(v@);
    if raw.len() > 0 && raw[raw.len() - 1].len() == 0 {
        let _ = raw.pop();
        proof {
            assert(views_of(raw@) =~= rl.drop_last());
        }
    }
    let ghost kept = views_of(raw@);
    let mut out: Vec<Vec<char>> = Vec::new();
    let mut i: usize = 0;
    while i < raw.len()
        invariant
            i <= raw@.len(),
            kept == views_of(raw@),
            views_of(out@) == Seq::new(i as nat, |m: int| strip_cr(kept[m])),
        decreases raw@.len() - i,
    {
        let ghost before = views_of(out@);
        let line = &raw[i];
        let mut stripped: Vec<char> = Vec::new();
        let keep: usize = if line.len() > 0 && line[line.len() - 1] == '\r' {
            line.len() - 1
        } else {
            line.len()
        };
        let mut k: usize = 0;
        while k < keep
            invariant
                k <= keep,
                keep <= line@.len(),
                line@ == raw@[i as int]@,
                stripped@ == line@.subrange(0, k as int),
            decreases keep - k,
        {
            stripped.push(line[k]);
            k = k + 1;
            proof {
                assert(stripped@ =~= line@.subrange(0, k as int));
            }
        }
        proof {
            assert(stripped@ =~= strip_cr(kept[i as int]));
        }
        let ghost sv = stripped@;
        out.push(stripped);
        i = i + 1;
        proof {
            assert(views_of(out@) =~= before.push(sv));
            assert(views_of(out@) =~= Seq::new(i as nat, |m: int| strip_cr(kept[m])));
        }
    }
    proof {
        assert(views_of(out@) =~= lines_of(v@));
    }
    out
}

// ------------------------------------------------------------------
// The request line
// ------------------------------------------------------------------

/// The length of the leading whitespace run.
pub open spec fn wsr_len(s: Seq<char>) -> int
    decreases s.len(),
{
    if s.len() == 0 || !is_ws(s[0]) {
        0
    } else {
        1 + wsr_len(s.drop_first())
    }
}

/// The length of the leading non-whitespace run.
pub open spec fn tok_len(s: Seq<char>) -> int
    decreases s.len(),
{
    if s.len() == 0 || is_ws(s[0]) {
        0
    } else {
        1 + tok_len(s.drop_first())
    }
}

proof fn lemma_wsr_len_bounds(s: Seq<char>)
    ensures
        0 <= wsr_len(s) <= s.len(),
        forall|i: int| 0 <= i < wsr_len(s) ==> is_ws(s[i]),
        wsr_len(s) < s.len() ==> !is_ws(s[wsr_len(s)]),
    decreases s.len(),
{
    if s.len() != 0 && is_ws(s[0]) {
        lemma_wsr_len_bounds(s.drop_first());
        assert forall|i: int| 0 <= i < wsr_len(s) implies is_ws(s[i]) by {
            if i > 0 {
                assert(s.drop_first()[i - 1] == s[i]);
            }
        }
        if wsr_len(s) < s.len() {
            assert(s.drop_first()[wsr_len(s) - 1] == s[wsr_len(s)]);
        }
    }
}

proof fn lemma_tok_len_bounds(s: Seq<char>)
    ensures
        0 <= tok_len(s) <= s.len(),
        forall|i: int| 0 <= i < tok_len(s) ==> !is_ws(s[i]),
        tok_len(s) < s.len() ==> is_ws(s[tok_len(s)]),
    decreases s.len(),
{
    if s.len() != 0 && !is_ws(s[0]) {
        lemma_tok_len_bounds(s.drop_first());
        assert forall|i: int| 0 <= i < tok_len(s) implies !is_ws(s[i]) by {
            if i > 0 {
                assert(s.drop_first()[i - 1] == s[i]);
            }
        }
        if tok_len(s) < s.len() {
            assert(s.drop_first()[tok_len(s) - 1] == s[tok_len(s)]);
        }
    }
}

/// The whitespace-separated tokens of a line.
pub open spec fn ws_tokens(s: Seq<char>) -> Seq<Seq<char>>
    decreases s.len(),
    via ws_tokens_dec
{
    if s.len() == 0 {
        Seq::empty()
    } else if is_ws(s[0]) {
        ws_tokens(s.drop_first())
    } else {
        seq![s.subrange(0, tok_len(s))] + ws_tokens(s.skip(tok_len(s)))
    }
}

#[via_fn]
proof fn ws_tokens_dec(s: Seq<char>) {
    if s.len() != 0 && !is_ws(s[0]) {
        lemma_tok_len_bounds(s);
        assert(tok_len(s) >= 1);
    }
}

/// Append the whitespace-separated tokens of `v` from position `i` on.
fn ws_tokens_from(v: &[char], i: usize, out: &mut Vec<Vec<char>>)
    requires
        i <= v@.len(),
    ensures
        views_of(final(out)@) == views_of(old(out)@) + ws_tokens(v@.skip(i as int)),
    decreases v@.len() - i,
{
    let ghost rest = v@.skip(i as int);
    if i == v.len() {
        proof {
            assert(rest.len() == 0);
            assert(views_of(out@) =~= views_of(old(out)@) + ws_tokens(rest));
        }
    } else if crate::text::is_ws_exec(v[i]) {
        ws_tokens_from(v, i + 1, out);
        proof {
            assert(rest[0] == v@[i as int]);
            assert(rest.drop_first() =~= v@.skip(i + 1));
            assert(views_of(out@) =~= views_of(old(out)@) + ws_tokens(rest));
        }
    } else {
        let mut j: usize = i;
        let mut cur: Vec<char> = Vec::new();
        while j < v.len() && !crate::text::is_ws_exec(v[j])
            invariant
                i <= j <= v@.len(),
                forall|m: int| i <= m < j ==> !is_ws(v@[m]),
                cur@ == v@.subrange(i as int, j as int),
            decreases v@.len() - j,
        {
            cur.push(v[j]);
            j = j + 1;
            proof {
                assert(cur@ =~= v@.subrange(i as int, j as int));
            }
        }
        proof {
            lemma_tok_len_bounds(rest);
            assert forall|m: int| 0 <= m < j - i implies !is_ws(rest[m]) by {
                assert(rest[m] == v@[i + m]);
            }
            if (j as int) < v@.len() {
                assert(rest[j - i] == v@[j as int]);
            }
            assert(tok_len(rest) == j - i) by {
                if tok_len(rest) < j - i {
                    assert(is_ws(rest[tok_len(rest)]));
                    assert(!is_ws(rest[tok_len(rest)]));
                } else if tok_len(rest) > j - i {
                    assert(!is_ws(rest[j - i]));
                    assert((j as int) < v@.len());
                }
            }
            assert(cur@ =~= rest.subrange(0, tok_len(rest)));
        }
        let ghost before = views_of(out@);
        let ghost curv = cur@;
        out.push(cur);
        proof {
            assert(views_of(out@) =~= before.push(curv));
        }
        ws_tokens_from(v, j, out);
        proof {
            assert(rest.skip(tok_len(rest)) =~= v@.skip(j as int));
            assert(ws_tokens(rest) == seq![rest.subrange(0, tok_len(rest))] + ws_tokens(
                rest.skip(tok_len(rest)),
            ));
            assert(views_of(out@) =~= views_of(old(out)@) + ws_tokens(rest));
        }
    }
}

// ------------------------------------------------------------------
// Header lines into the header table
// ------------------------------------------------------------------

/// The values under the first header named `k`, if any.
pub open spec fn hdr_lookup(
    hs: Seq<(Seq<char>, Seq<Seq<char>>)>,
    k: Seq<char>,
) -> Option<Seq<Seq<char>>>
    decreases hs.len(),
{
    if hs.len() == 0 {
        None
    } else if hs[0].0 == k {
        Some(hs[0].1)
    } else {
        hdr_lookup(hs.drop_first(), k)
    }
}

/// The header table with one more value appended under `k`: to the first
/// entry so named, or as a new entry at the end.
pub open spec fn hdr_append(
    hs: Seq<(Seq<char>, Seq<Seq<char>>)>,
    k: Seq<char>,
    v: Seq<char>,
) -> Seq<(Seq<char>, Seq<Seq<char>>)>
    decreases hs.len(),
{
    if hs.len() == 0 {
        seq![(k, seq![v])]
    } else if hs[0].0 == k {
        seq![(k, hs[0].1.push(v))] + hs.drop_first()
    } else {
        seq![hs[0]] + hdr_append(hs.drop_first(), k, v)
    }
}

/// The length of the leading run without a colon.
pub open spec fn colon_len(s: Seq<char>) -> int
    decreases s.len(),
{
    if s.len() == 0 || s[0] == ':' {
        0
    } else {
        1 + colon_len(s.drop_first())
    }
}

proof fn lemma_colon_len_bounds(s: Seq<char>)
    ensures
        0 <= colon_len(s) <= s.len(),
        forall|i: int| 0 <= i < colon_len(s) ==> s[i] != ':',
        colon_len(s) < s.len() ==> s[colon_len(s)] == ':',
    decreases s.len(),
{
    if s.len() != 0 && s[0] != ':' {
        lemma_colon_len_bounds(s.drop_first());
        assert forall|i: int| 0 <= i < colon_len(s) implies s[i] != ':' by {
            if i > 0 {
                assert(s.drop_first()[i - 1] == s[i]);
            }
        }
        if colon_len(s) < s.len() {
            assert(s.drop_first()[colon_len(s) - 1] == s[colon_len(s)]);
        }
    }
}

/// The length of the leading run without a comma.
pub open spec fn comma_len(s: Seq<char>) -> int
    decreases s.len(),
{
    if s.len() == 0 || s[0] == ',' {
        0
    } else {
        1 + comma_len(s.drop_first())
    }
}

proof fn lemma_comma_len_bounds(s: Seq<char>)
    ensures
        0 <= comma_len(s) <= s.len(),
        forall|i: int| 0 <= i < comma_len(s) ==> s[i] != ',',
        comma_len(s) < s.len() ==> s[comma_len(s)] == ',',
    decreases s.len(),
{
    if s.len() != 0 && s[0] != ',' {
        lemma_comma_len_bounds(s.drop_first());
        assert forall|i: int| 0 <= i < comma_len(s) implies s[i] != ',' by {
            if i > 0 {
                assert(s.drop_first()[i - 1] == s[i]);
            }
        }
        if comma_len(s) < s.len() {
            assert(s.drop_first()[comma_len(s) - 1] == s[comma_len(s)]);
        }
    }
}

/// A header value split on commas, every piece kept.
pub open spec fn comma_split(s: Seq<char>) -> Seq<Seq<char>>
    decreases s.len(),
    via comma_split_dec
{
    let k = comma_len(s);
    if k == s.len() {
        seq![s]
    } else {
        seq![s.subrange(0, k)] + comma_split(s.skip(k + 1))
    }
}

#[via_fn]
proof fn comma_split_dec(s: Seq<char>) {
    lemma_comma_len_bounds(s);
}

/// The header table after appending each piece, trimmed, under `k`.
pub open spec fn hdr_append_all(
    hs: Seq<(Seq<char>, Seq<Seq<char>>)>,
    k: Seq<char>,
    ps: Seq<Seq<char>>,
) -> Seq<(Seq<char>, Seq<Seq<char>>)>
    decreases ps.len(),
{
    if ps.len() == 0 {
        hs
    } else {
        hdr_append_all(hdr_append(hs, k, trim_seq(ps[0])), k, ps.drop_first())
    }
}

/// What one header line adds to the table: nothing without a colon, else
/// every comma-separated piece of the value, trimmed, under the trimmed,
/// case-folded name.
pub open spec fn line_apply(
    hs: Seq<(Seq<char>, Seq<Seq<char>>)>,
    l: Seq<char>,
) -> Seq<(Seq<char>, Seq<Seq<char>>)> {
    let k = colon_len(l);
    if k == l.len() {
        hs
    } else {
        let name = lower_seq(trim_seq(l.subrange(0, k)));
        line_apply_named(hs, name, l.skip(k + 1))
    }
}

/// What a header line with this name and raw value adds to the table.
pub open spec fn line_apply_named(
    hs: Seq<(Seq<char>, Seq<Seq<char>>)>,
    name: Seq<char>,
    value: Seq<char>,
) -> Seq<(Seq<char>, Seq<Seq<char>>)> {
    hdr_append_all(hs, name, comma_split(trim_seq(value)))
}

/// The header table built from these lines.
pub open spec fn fold_header_lines(
    hs: Seq<(Seq<char>, Seq<Seq<char>>)>,
    ls: Seq<Seq<char>>,
) -> Seq<(Seq<char>, Seq<Seq<char>>)>
    decreases ls.len(),
{
    if ls.len() == 0 {
        hs
    } else {
        fold_header_lines(line_apply(hs, ls[0]), ls.drop_first())
    }
}

/// What parsing the header text yields: the three request-line tokens and
/// the header table, or nothing when the request line is short.
pub open spec fn head_of(s: Seq<char>) -> Option<
    (Seq<char>, Seq<char>, Seq<char>, Seq<(Seq<char>, Seq<Seq<char>>)>),
> {
    let ls = lines_of(s);
    if ls.len() == 0 {
        None
    } else {
        let toks = ws_tokens(ls[0]);
        if toks.len() < 3 {
            None
        } else {
            Some((toks[0], toks[1], toks[2], fold_header_lines(Seq::empty(), ls.drop_first())))
        }
    }
}

/// The first index whose header is named `name`.
fn hdr_index_of(hs: &Vec<(String, Vec<String>)>, name: &[char]) -> (r: Option<usize>)
    ensures
        match r {
            Some(i) => i < hs@.len() && hs@[i as int].0@ == name@ && forall|j: int|
                0 <= j < i ==> hs@[j].0@ != name@,
            None => forall|j: int| 0 <= j < hs@.len() ==> hs@[j].0@ != name@,
        },
{
    let mut i: usize = 0;
    while i < hs.len()
        invariant
            i <= hs@.len(),
            forall|j: int| 0 <= j < i ==> hs@[j].0@ != name@,
        decreases hs@.len() - i,
    {
        if crate::text::chars_eq_str(name, hs[i].0.as_str()) {
            return Some(i);
        }
        i = i + 1;
    }
    None
}

/// Append one value under a header name.
fn hdr_append_exec(hs: &mut Vec<(String, Vec<String>)>, name: &[char], value: Vec<char>)
    ensures
        final(hs).deep_view() == hdr_append(old(hs).deep_view(), name@, value@),
{
    let ghost orig = hs.deep_view();
    let sv = string_of(value.as_slice());
    match hdr_index_of(hs, name) {
        Some(x) => {
            let mut entry = hs.remove(x);
            entry.1.push(sv);
            hs.insert(x, entry);
            proof {
                assert(hs@ =~= old(hs)@.update(x as int, (old(hs)@[x as int].0, entry.1)));
                assert(hs.deep_view().len() == orig.len());
                assert forall|j: int| 0 <= j < orig.len() && j != x implies hs.deep_view()[j]
                    == orig[j] by {
                    assert(hs@[j] == old(hs)@[j]);
                }
                assert(entry.1.deep_view() =~= orig[x as int].1.push(value@));
                assert(hs.deep_view()[x as int] == (orig[x as int].0, orig[x as int].1.push(
                    value@,
                )));
                assert forall|j: int| 0 <= j < x implies orig[j].0 != name@ by {
                    assert(orig[j].0 == old(hs)@[j].0@);
                }
                lemma_hdr_append_at(orig, hs.deep_view(), name@, value@, x as int);
            }
        }
        None => {
            let mut vs: Vec<String> = Vec::new();
            vs.push(sv);
            hs.push((string_of(name), vs));
            proof {
                assert(hs.deep_view() =~~= orig.push((name@, seq![value@])));
                assert forall|j: int| 0 <= j < orig.len() implies orig[j].0 != name@ by {
                    assert(orig[j].0 == old(hs)@[j].0@);
                }
                lemma_hdr_append_fresh(orig, name@, value@);
            }
        }
    }
}

/// Appending at the first entry named `k` realizes `hdr_append`.
proof fn lemma_hdr_append_at(
    before: Seq<(Seq<char>, Seq<Seq<char>>)>,
    after: Seq<(Seq<char>, Seq<Seq<char>>)>,
    k: Seq<char>,
    v: Seq<char>,
    x: int,
)
    requires
        0 <= x < before.len(),
        after.len() == before.len(),
        forall|j: int| 0 <= j < before.len() && j != x ==> after[j] == before[j],
        after[x] == (before[x].0, before[x].1.push(v)),
        before[x].0 == k,
        forall|j: int| 0 <= j < x ==> before[j].0 != k,
    ensures
        after == hdr_append(before, k, v),
    decreases x,
{
    if x == 0 {
        assert(hdr_append(before, k, v) == seq![(k, before[0].1.push(v))] + before.drop_first());
        assert(after =~= seq![(k, before[0].1.push(v))] + before.drop_first());
    } else {
        assert forall|j: int|
            0 <= j < before.drop_first().len() && j != x - 1 implies after.drop_first()[j]
            == before.drop_first()[j] by {
            assert(after.drop_first()[j] == after[j + 1]);
            assert(before.drop_first()[j] == before[j + 1]);
        }
        assert(after.drop_first()[x - 1] == after[x]);
        assert(before.drop_first()[x - 1] == before[x]);
        assert forall|j: int| 0 <= j < x - 1 implies before.drop_first()[j].0 != k by {
            assert(before.drop_first()[j] == before[j + 1]);
        }
        lemma_hdr_append_at(before.drop_first(), after.drop_first(), k, v, x - 1);
        assert(before[0].0 != k);
        assert(hdr_append(before, k, v) == seq![before[0]] + hdr_append(
            before.drop_first(),
            k,
            v,
        ));
        assert(after[0] == before[0]);
        assert(after =~= seq![after[0]] + after.drop_first());
    }
}

/// Appending under a fresh name realizes `hdr_append`.
proof fn lemma_hdr_append_fresh(hs: Seq<(Seq<char>, Seq<Seq<char>>)>, k: Seq<char>, v: Seq<char>)
    requires
        forall|j: int| 0 <= j < hs.len() ==> hs[j].0 != k,
    ensures
        hs.push((k, seq![v])) == hdr_append(hs, k, v),
    decreases hs.len(),
{
    if hs.len() == 0 {
        assert(hdr_append(hs, k, v) == seq![(k, seq![v])]);
        assert(hs.push((k, seq![v])) =~= seq![(k, seq![v])]);
    } else {
        assert forall|j: int| 0 <= j < hs.drop_first().len() implies hs.drop_first()[j].0
            != k by {
            assert(hs.drop_first()[j] == hs[j + 1]);
        }
        lemma_hdr_append_fresh(hs.drop_first(), k, v);
        assert(hs[0].0 != k);
        assert(hdr_append(hs, k, v) == seq![hs[0]] + hdr_append(hs.drop_first(), k, v));
        assert(hs.drop_first().push((k, seq![v])) =~= hs.push((k, seq![v])).drop_first());
        assert(hs.push((k, seq![v])) =~= seq![hs[0]] + hs.push((k, seq![v])).drop_first());
    }
}


/// A member named `k` at first index `i` fixes what `hdr_lookup` returns.
proof fn lemma_hdr_lookup_index(hs: Seq<(Seq<char>, Seq<Seq<char>>)>, k: Seq<char>, i: int)
    requires
        0 <= i < hs.len(),
        forall|j: int| 0 <= j < i ==> hs[j].0 != k,
        hs[i].0 == k,
    ensures
        hdr_lookup(hs, k) == Some(hs[i].1),
    decreases i,
{
    if i > 0 {
        assert forall|j: int| 0 <= j < i - 1 implies hs.drop_first()[j].0 != k by {
            assert(hs.drop_first()[j] == hs[j + 1]);
        }
        assert(hs.drop_first()[i - 1] == hs[i]);
        lemma_hdr_lookup_index(hs.drop_first(), k, i - 1);
        assert(hs[0].0 != k);
    }
}

/// A table without a header named `k` looks `k` up to nothing.
proof fn lemma_hdr_lookup_none(hs: Seq<(Seq<char>, Seq<Seq<char>>)>, k: Seq<char>)
    requires
        forall|j: int| 0 <= j < hs.len() ==> hs[j].0 != k,
    ensures
        hdr_lookup(hs, k) is None,
    decreases hs.len(),
{
    if hs.len() != 0 {
        assert forall|j: int| 0 <= j < hs.drop_first().len() implies hs.drop_first()[j].0
            != k by {
            assert(hs.drop_first()[j] == hs[j + 1]);
        }
        lemma_hdr_lookup_none(hs.drop_first(), k);
        assert(hs[0].0 != k);
    }
}

/// The values under the first header named `k`, if any.
pub fn hdr_get<'a>(hs: &'a Vec<(String, Vec<String>)>, k: &str) -> (r: Option<&'a Vec<String>>)
    ensures
        match r {
            Some(vs) => hdr_lookup(hs.deep_view(), k@) == Some(vs.deep_view()),
            None => hdr_lookup(hs.deep_view(), k@) is None,
        },
{
    let kc = chars_of(k);
    match hdr_index_of(hs, kc.as_slice()) {
        Some(i) => {
            proof {
                lemma_hdr_lookup_index(hs.deep_view(), k@, i as int);
            }
            Some(&hs[i].1)
        }
        None => {
            proof {
                lemma_hdr_lookup_none(hs.deep_view(), k@);
            }
            None
        }
    }
}

// ------------------------------------------------------------------
// Numbers: the declared content length
// ------------------------------------------------------------------

/// Whether a character is an ASCII decimal digit.
pub open spec fn is_digit(c: char) -> bool {
    ('0' as u32) <= (c as u32) <= ('9' as u32)
}

/// The value of one digit.
pub open spec fn digit_val(c: char) -> int {
    (c as u32) - ('0' as u32)
}

/// The value of a digit string, most significant first.
pub open spec fn digits_val(s: Seq<char>) -> int
    decreases s.len(),
{
    if s.len() == 0 {
        0
    } else {
        digits_val(s.drop_last()) * 10 + digit_val(s.last())
    }
}

/// Whether every character is a digit.
pub open spec fn all_digits(s: Seq<char>) -> bool {
    forall|i: int| 0 <= i < s.len() ==> is_digit(#[trigger] s[i])
}

/// What `str::parse::<usize>` accepts: an optional plus sign, then digits,
/// fitting the machine word.
pub open spec fn spec_parse_usize(s: Seq<char>) -> Option<int> {
    let t = if s.len() > 0 && s[0] == '+' {
        s.drop_first()
    } else {
        s
    };
    if t.len() > 0 && all_digits(t) && digits_val(t) <= usize::MAX {
        Some(digits_val(t))
    } else {
        None
    }
}

proof fn lemma_digits_val_nonneg(s: Seq<char>)
    requires
        all_digits(s),
    ensures
        digits_val(s) >= 0,
    decreases s.len(),
{
    if s.len() != 0 {
        assert forall|i: int| 0 <= i < s.drop_last().len() implies is_digit(
            #[trigger] s.drop_last()[i],
        ) by {
            assert(s.drop_last()[i] == s[i]);
        }
        lemma_digits_val_nonneg(s.drop_last());
    }
}

/// Prefix values never exceed the whole value of a digit string.
proof fn lemma_digits_val_mono(s: Seq<char>, i: int)
    requires
        all_digits(s),
        0 <= i <= s.len(),
    ensures
        digits_val(s.take(i)) <= digits_val(s),
    decreases s.len() - i,
{
    if i < s.len() {
        lemma_digits_val_mono(s, i + 1);
        assert(s.take(i + 1).drop_last() =~= s.take(i));
        assert(s.take(i + 1).last() == s[i]);
        assert forall|j: int| 0 <= j < s.take(i).len() implies is_digit(
            #[trigger] s.take(i)[j],
        ) by {
            assert(s.take(i)[j] == s[j]);
        }
        assert(all_digits(s.take(i)));
        lemma_digits_val_nonneg(s.take(i));
        assert(digits_val(s.take(i + 1)) == digits_val(s.take(i)) * 10 + digit_val(s[i]));
    } else {
        assert(s.take(i) =~= s);
    }
}

/// Parse an unsigned number exactly as `str::parse::<usize>` would.
pub fn parse_usize_chars(v: &[char]) -> (r: Option<usize>)
    ensures
        match r {
            Some(n) => spec_parse_usize(v@) == Some(n as int),
            None => spec_parse_usize(v@) is None,
        },
{
    let start: usize = if v.len() > 0 && v[0] == '+' {
        1
    } else {
        0
    };
    let ghost t = if v@.len() > 0 && v@[0] == '+' {
        v@.drop_first()
    } else {
        v@
    };
    proof {
        assert(t =~= v@.subrange(start as int, v@.len() as int));
    }
    if start == v.len() {
        proof {
            assert(t.len() == 0);
        }
        return None;
    }
    let mut acc: usize = 0;
    let mut i: usize = start;
    while i < v.len()
        invariant
            start <= i <= v@.len(),
            start == if v@.len() > 0 && v@[0] == '+' { 1int } else { 0int },
            t == v@.subrange(start as int, v@.len() as int),
            forall|j: int| 0 <= j < i - start ==> is_digit(#[trigger] t[j]),
            acc == digits_val(t.take(i - start)),
        decreases v@.len() - i,
    {
        proof {
            assert(t =~= if v@.len() > 0 && v@[0] == '+' {
                v@.drop_first()
            } else {
                v@
            });
        }
        let c = v[i];
        let u: u32 = c as u32;
        if !(48 <= u && u <= 57) {
            proof {
                assert(t[i - start] == v@[i as int]);
                assert(!is_digit(t[i - start]));
                assert(!all_digits(t));
                assert(spec_parse_usize(v@) is None);
            }
            return None;
        }
        let d: usize = (u - 48) as usize;
        if acc > (usize::MAX - d) / 10 {
            proof {
                assert(t[i - start] == v@[i as int]);
                assert forall|j: int| 0 <= j < i + 1 - start implies is_digit(
                    #[trigger] t[j],
                ) by {
                    assert(t[j] == v@[start + j]);
                }
                vstd::arithmetic::div_mod::lemma_fundamental_div_mod(
                    (usize::MAX - d) as int,
                    10,
                );
                assert(t.take(i + 1 - start).drop_last() =~= t.take(i - start));
                assert(t.take(i + 1 - start).last() == t[i - start]);
                assert(digits_val(t.take(i + 1 - start)) > usize::MAX);
                if all_digits(t) {
                    lemma_digits_val_mono(t, i + 1 - start);
                    assert(digits_val(t) > usize::MAX);
                }
                assert(spec_parse_usize(v@) is None);
            }
            return None;
        }
        proof {
            vstd::arithmetic::div_mod::lemma_fundamental_div_mod((usize::MAX - d) as int, 10);
            assert(acc * 10 + d <= usize::MAX);
            assert(t.take(i + 1 - start).drop_last() =~= t.take(i - start));
            assert(t.take(i + 1 - start).last() == t[i - start]);
            assert(t[i - start] == v@[i as int]);
        }
        acc = acc * 10 + d;
        i = i + 1;
    }
    proof {
        assert(t.take(i - start) =~= t);
        assert(t.len() > 0);
        assert(all_digits(t));
        assert(spec_parse_usize(v@) == Some(acc as int));
    }
    Some(acc)
}

/// The declared content length: the first `content-length` value, parsed;
/// absent or unreadable means zero.
pub open spec fn content_length_of(hs: Seq<(Seq<char>, Seq<Seq<char>>)>) -> int {
    match hdr_lookup(hs, "content-length"@) {
        Some(vs) => if vs.len() > 0 {
            match spec_parse_usize(vs[0]) {
                Some(n) => n,
                None => 0,
            }
        } else {
            0
        },
        None => 0,
    }
}

/// The declared content length of a request.
pub fn content_length(headers: &Vec<(String, Vec<String>)>) -> (r: usize)
    ensures
        r == content_length_of(headers.deep_view()),
{
    match hdr_get(headers, "content-length") {
        Some(vs) => {
            if vs.len() > 0 {
                proof {
                    assert(vs.deep_view()[0] == vs@[0]@);
                }
                let cs = chars_of(vs[0].as_str());
                match parse_usize_chars(cs.as_slice()) {
                    Some(n) => n,
                    None => 0,
                }
            } else {
                0
            }
        }
        None => 0,
    }
}

/// How many body bytes remain to be read beyond those already captured.
pub fn body_bytes_needed(content_length: usize, have: usize) -> (r: usize)
    ensures
        r == if content_length > have {
            content_length - have
        } else {
            0
        },
{
    if content_length > have {
        content_length - have
    } else {
        0
    }
}


// ------------------------------------------------------------------
// Parsing the header block
// ------------------------------------------------------------------

/// Copy a range of a character slice.
pub fn copy_range(v: &[char], a: usize, b: usize) -> (r: Vec<char>)
    requires
        a <= b <= v@.len(),
    ensures
        r@ == v@.subrange(a as int, b as int),
{
    let mut r: Vec<char> = Vec::new();
    let mut i: usize = a;
    while i < b
        invariant
            a <= i <= b <= v@.len(),
            r@ == v@.subrange(a as int, i as int),
        decreases b - i,
    {
        r.push(v[i]);
        i = i + 1;
        proof {
            assert(r@ =~= v@.subrange(a as int, i as int));
        }
    }
    proof {
        assert(r@ =~= v@.subrange(a as int, b as int));
    }
    r
}

/// The first colon position, or the length when there is none.
fn find_colon(v: &[char]) -> (r: usize)
    ensures
        r == colon_len(v@),
{
    let mut i: usize = 0;
    while i < v.len() && v[i] != ':'
        invariant
            i <= v@.len(),
            forall|m: int| 0 <= m < i ==> v@[m] != ':',
        decreases v@.len() - i,
    {
        i = i + 1;
    }
    proof {
        lemma_colon_len_bounds(v@);
        if colon_len(v@) < i {
            assert(v@[colon_len(v@)] == ':');
        }
        if colon_len(v@) > i {
            assert((i as int) < v@.len());
            assert(v@[i as int] != ':');
        }
    }
    i
}

/// Split a header value on commas from position `i` on, keeping every
/// piece.
fn comma_split_from(v: &[char], i: usize, out: &mut Vec<Vec<char>>)
    requires
        i <= v@.len(),
    ensures
        views_of(final(out)@) == views_of(old(out)@) + comma_split(v@.skip(i as int)),
    decreases v@.len() - i,
{
    let ghost rest = v@.skip(i as int);
    let mut j: usize = i;
    let mut cur: Vec<char> = Vec::new();
    while j < v.len() && v[j] != ','
        invariant
            i <= j <= v@.len(),
            forall|m: int| i <= m < j ==> v@[m] != ',',
            cur@ == v@.subrange(i as int, j as int),
        decreases v@.len() - j,
    {
        cur.push(v[j]);
        j = j + 1;
        proof {
            assert(cur@ =~= v@.subrange(i as int, j as int));
        }
    }
    proof {
        lemma_comma_len_bounds(rest);
        assert forall|m: int| 0 <= m < j - i implies rest[m] != ',' by {
            assert(rest[m] == v@[i + m]);
        }
        if (j as int) < v@.len() {
            assert(rest[j - i] == v@[j as int]);
        }
        assert(comma_len(rest) == j - i) by {
            if comma_len(rest) < j - i {
                assert(rest[comma_len(rest)] == ',');
                assert(rest[comma_len(rest)] != ',');
            } else if comma_len(rest) > j - i {
                assert(rest[j - i] != ',');
                assert((j as int) < v@.len());
            }
        }
        assert(cur@ =~= rest.subrange(0, comma_len(rest)));
    }
    let ghost before = views_of(out@);
    let ghost curv = cur@;
    out.push(cur);
    proof {
        assert(views_of(out@) =~= before.push(curv));
    }
    if j == v.len() {
        proof {
            assert(comma_len(rest) == rest.len());
            assert(comma_split(rest) == seq![rest]);
            assert(rest.subrange(0, comma_len(rest)) =~= rest);
            assert(views_of(out@) =~= views_of(old(out)@) + comma_split(rest));
        }
    } else {
        comma_split_from(v, j + 1, out);
        proof {
            assert(rest.skip(comma_len(rest) + 1) =~= v@.skip(j + 1));
            assert(comma_split(rest) == seq![rest.subrange(0, comma_len(rest))] + comma_split(
                rest.skip(comma_len(rest) + 1),
            ));
            assert(views_of(out@) =~= views_of(old(out)@) + comma_split(rest));
        }
    }
}

/// Fold one header line into the table.
fn apply_header_line(hs: &mut Vec<(String, Vec<String>)>, line: &[char])
    ensures
        final(hs).deep_view() == line_apply(old(hs).deep_view(), line@),
{
    let k = find_colon(line);
    if k == line.len() {
        return;
    }
    proof {
        lemma_colon_len_bounds(line@);
    }
    let raw_name = copy_range(line, 0, k);
    let name = lower_chars(trim_chars(raw_name.as_slice()).as_slice());
    let value = copy_range(line, k + 1, line.len());
    proof {
        assert(value@ =~= line@.skip(k + 1));
        assert(name@ == lower_seq(trim_seq(line@.subrange(0, k as int))));
    }
    let trimmed = trim_chars(value.as_slice());
    let mut pieces: Vec<Vec<char>> = Vec::new();
    comma_split_from(trimmed.as_slice(), 0, &mut pieces);
    proof {
        assert(trimmed@.skip(0) =~= trimmed@);
        assert(views_of(pieces@) =~= comma_split(trim_seq(line@.skip(k + 1))));
    }
    let ghost ps = views_of(pieces@);
    let ghost target = hdr_append_all(hs.deep_view(), name@, ps);
    proof {
        assert(ps.skip(0) =~= ps);
    }
    let mut i: usize = 0;
    while i < pieces.len()
        invariant
            i <= pieces@.len(),
            ps == views_of(pieces@),
            name@ == lower_seq(trim_seq(line@.subrange(0, colon_len(line@)))),
            hdr_append_all(hs.deep_view(), name@, ps.skip(i as int)) == target,
        decreases pieces@.len() - i,
    {
        let ghost tail = ps.skip(i as int);
        proof {
            assert(tail[0] == pieces@[i as int]@);
            assert(tail.drop_first() =~= ps.skip(i + 1));
        }
        let piece = trim_chars(pieces[i].as_slice());
        hdr_append_exec(hs, name.as_slice(), piece);
        i = i + 1;
        proof {
            assert(hdr_append_all(hs.deep_view(), name@, ps.skip(i as int)) == target);
        }
    }
    proof {
        assert(ps.skip(pieces@.len() as int).len() == 0);
    }
}

/// Parse the header block into the request line and the header table.
/// Failure means a bad request: fewer than three request-line tokens.
pub fn parse_request_head(header_bytes: &[u8]) -> (r: Result<HttpRequest, ResponseCode>)
    ensures
        match (r, head_of(utf8_lossy_of(header_bytes@))) {
            (Ok(h), Some(q)) => h.method@ == q.0 && h.path@ == q.1 && h.version@ == q.2
                && h.headers.deep_view() == q.3,
            (Err(c), None) => c == ResponseCode::BadRequest,
            _ => false,
        },
{
    let text = utf8_lossy(header_bytes);
    let cs = chars_of(text.as_str());
    let lines = split_lines(cs.as_slice());
    let ghost lv = lines_of(utf8_lossy_of(header_bytes@));
    if lines.len() == 0 {
        return Err(ResponseCode::BadRequest);
    }
    let mut toks: Vec<Vec<char>> = Vec::new();
    ws_tokens_from(lines[0].as_slice(), 0, &mut toks);
    proof {
        assert(lines@[0]@.skip(0) =~= lv[0]);
        assert(views_of(toks@) =~= ws_tokens(lv[0]));
    }
    if toks.len() < 3 {
        return Err(ResponseCode::BadRequest);
    }
    let method = string_of(toks[0].as_slice());
    let path = string_of(toks[1].as_slice());
    let version = string_of(toks[2].as_slice());
    let mut headers: Vec<(String, Vec<String>)> = Vec::new();
    let ghost target = fold_header_lines(Seq::empty(), lv.drop_first());
    proof {
        assert(lv.drop_first() =~= lv.skip(1));
        assert(headers.deep_view() =~= Seq::<(Seq<char>, Seq<Seq<char>>)>::empty());
    }
    let mut i: usize = 1;
    while i < lines.len()
        invariant
            1 <= i <= lines@.len(),
            lv == views_of(lines@),
            target == fold_header_lines(Seq::empty(), lv.skip(1)),
            fold_header_lines(headers.deep_view(), lv.skip(i as int)) == target,
        decreases lines@.len() - i,
    {
        let ghost tail = lv.skip(i as int);
        proof {
            assert(tail[0] == lines@[i as int]@);
            assert(tail.drop_first() =~= lv.skip(i + 1));
        }
        apply_header_line(&mut headers, lines[i].as_slice());
        i = i + 1;
        proof {
            assert(fold_header_lines(headers.deep_view(), lv.skip(i as int)) == target);
        }
    }
    proof {
        assert(lv.skip(lines@.len() as int).len() == 0);
        assert(views_of(toks@)[0] == toks@[0]@);
        assert(views_of(toks@)[1] == toks@[1]@);
        assert(views_of(toks@)[2] == toks@[2]@);
    }
    Ok(HttpRequest { method, path, version, headers })
}

// ------------------------------------------------------------------
// The query string
// ------------------------------------------------------------------

/// Whether a character is a word character: a letter, a digit or an
/// underscore.
pub open spec fn is_word(c: char) -> bool {
    ||| ('A' as u32) <= (c as u32) <= ('Z' as u32)
    ||| ('a' as u32) <= (c as u32) <= ('z' as u32)
    ||| is_digit(c)
    ||| c == '_'
}

/// Whether a character is a word character.
fn is_word_exec(c: char) -> (r: bool)
    ensures
        r == is_word(c),
{
    let u: u32 = c as u32;
    (65 <= u && u <= 90) || (97 <= u && u <= 122) || (48 <= u && u <= 57) || c == '_'
}

/// The length of the leading word-character run.
pub open spec fn word_len(s: Seq<char>) -> int
    decreases s.len(),
{
    if s.len() == 0 || !is_word(s[0]) {
        0
    } else {
        1 + word_len(s.drop_first())
    }
}

proof fn lemma_word_len_bounds(s: Seq<char>)
    ensures
        0 <= word_len(s) <= s.len(),
        forall|i: int| 0 <= i < word_len(s) ==> is_word(s[i]),
        word_len(s) < s.len() ==> !is_word(s[word_len(s)]),
    decreases s.len(),
{
    if s.len() != 0 && is_word(s[0]) {
        lemma_word_len_bounds(s.drop_first());
        assert forall|i: int| 0 <= i < word_len(s) implies is_word(s[i]) by {
            if i > 0 {
                assert(s.drop_first()[i - 1] == s[i]);
            }
        }
        if word_len(s) < s.len() {
            assert(s.drop_first()[word_len(s) - 1] == s[word_len(s)]);
        }
    }
}

/// The `key=value` pairs the query grammar accepts: at each position, a
/// maximal word run, an equals sign, and another word run; anything else
/// shifts the scan by one.
pub open spec fn query_pairs(s: Seq<char>) -> Seq<(Seq<char>, Seq<char>)>
    decreases s.len(),
    via query_pairs_dec
{
    if s.len() == 0 {
        Seq::empty()
    } else {
        let k = word_len(s);
        if k > 0 && k < s.len() && s[k] == '=' && word_len(s.skip(k + 1)) > 0 {
            let m = word_len(s.skip(k + 1));
            seq![(s.take(k), s.skip(k + 1).take(m))] + query_pairs(s.skip(k + 1 + m))
        } else {
            query_pairs(s.drop_first())
        }
    }
}

#[via_fn]
proof fn query_pairs_dec(s: Seq<char>) {
    if s.len() != 0 {
        lemma_word_len_bounds(s);
        let k = word_len(s);
        if k > 0 && k < s.len() && s[k] == '=' && word_len(s.skip(k + 1)) > 0 {
            lemma_word_len_bounds(s.skip(k + 1));
        }
    }
}

/// The leading word-run length from position `i`.
fn word_run(v: &[char], i: usize) -> (r: usize)
    requires
        i <= v@.len(),
    ensures
        i + word_len(v@.skip(i as int)) == r,
        i <= r <= v@.len(),
    decreases v@.len() - i,
{
    let ghost rest = v@.skip(i as int);
    let mut j: usize = i;
    while j < v.len() && is_word_exec(v[j])
        invariant
            i <= j <= v@.len(),
            forall|m: int| i <= m < j ==> is_word(v@[m]),
        decreases v@.len() - j,
    {
        j = j + 1;
    }
    proof {
        lemma_word_len_bounds(rest);
        assert forall|m: int| 0 <= m < j - i implies is_word(rest[m]) by {
            assert(rest[m] == v@[i + m]);
        }
        if (j as int) < v@.len() {
            assert(rest[j - i] == v@[j as int]);
        }
        assert(word_len(rest) == j - i) by {
            if word_len(rest) < j - i {
                assert(!is_word(rest[word_len(rest)]));
                assert(is_word(rest[word_len(rest)]));
            } else if word_len(rest) > j - i {
                assert(is_word(rest[j - i]));
                assert((j as int) < v@.len());
            }
        }
    }
    j
}

/// Scan the query text for `key=value` pairs from position `i` on.
fn query_scan(v: &[char], i: usize, out: &mut Vec<(String, String)>)
    requires
        i <= v@.len(),
    ensures
        final(out).deep_view() == old(out).deep_view() + query_pairs(v@.skip(i as int)),
    decreases v@.len() - i,
{
    let ghost rest = v@.skip(i as int);
    if i == v.len() {
        proof {
            assert(rest.len() == 0);
            assert(out.deep_view() =~= old(out).deep_view() + query_pairs(rest));
        }
        return;
    }
    let j = word_run(v, i);
    let ghost k = word_len(rest);
    proof {
        assert(k == j - i);
    }
    if j > i && j < v.len() && v[j] == '=' {
        let m = word_run(v, j + 1);
        proof {
            assert(rest.skip(k + 1) =~= v@.skip(j + 1));
            assert(rest[k] == v@[j as int]);
        }
        if m > j + 1 {
            let key = copy_range(v, i, j);
            let val = copy_range(v, j + 1, m);
            let ghost pre = out.deep_view();
            out.push((string_of(key.as_slice()), string_of(val.as_slice())));
            proof {
                assert(key@ =~= rest.take(k));
                assert(val@ =~= rest.skip(k + 1).take(word_len(rest.skip(k + 1))));
                assert(out.deep_view() =~~= pre.push((key@, val@)));
            }
            query_scan(v, m, out);
            proof {
                let m2 = word_len(rest.skip(k + 1));
                assert(rest.skip(k + 1 + m2) =~= v@.skip(m as int));
                assert(query_pairs(rest) == seq![(rest.take(k), rest.skip(k + 1).take(m2))]
                    + query_pairs(rest.skip(k + 1 + m2)));
                assert(out.deep_view() =~= old(out).deep_view() + query_pairs(rest));
            }
        } else {
            query_scan(v, i + 1, out);
            proof {
                assert(rest.drop_first() =~= v@.skip(i + 1));
                assert(out.deep_view() =~= old(out).deep_view() + query_pairs(rest));
            }
        }
    } else {
        proof {
            if (j as int) < v@.len() {
                assert(rest[k] == v@[j as int]);
            }
        }
        query_scan(v, i + 1, out);
        proof {
            assert(rest.drop_first() =~= v@.skip(i + 1));
            assert(out.deep_view() =~= old(out).deep_view() + query_pairs(rest));
        }
    }
}

// ------------------------------------------------------------------
// String-to-string maps with unique keys
// ------------------------------------------------------------------

/// The value under the first pair keyed `k`, if any.
pub open spec fn spair_lookup(ps: Seq<(Seq<char>, Seq<char>)>, k: Seq<char>) -> Option<Seq<char>>
    decreases ps.len(),
{
    if ps.len() == 0 {
        None
    } else if ps[0].0 == k {
        Some(ps[0].1)
    } else {
        spair_lookup(ps.drop_first(), k)
    }
}

/// The pairs with the first pair keyed `k` replaced by `(k, v)`, or with it
/// appended when no pair has that key.
pub open spec fn spair_put(
    ps: Seq<(Seq<char>, Seq<char>)>,
    k: Seq<char>,
    v: Seq<char>,
) -> Seq<(Seq<char>, Seq<char>)>
    decreases ps.len(),
{
    if ps.len() == 0 {
        seq![(k, v)]
    } else if ps[0].0 == k {
        seq![(k, v)] + ps.drop_first()
    } else {
        seq![ps[0]] + spair_put(ps.drop_first(), k, v)
    }
}

/// Every pair folded in, later values overriding earlier ones.
pub open spec fn fold_pairs(
    acc: Seq<(Seq<char>, Seq<char>)>,
    ps: Seq<(Seq<char>, Seq<char>)>,
) -> Seq<(Seq<char>, Seq<char>)>
    decreases ps.len(),
{
    if ps.len() == 0 {
        acc
    } else {
        fold_pairs(spair_put(acc, ps[0].0, ps[0].1), ps.drop_first())
    }
}

/// The first index whose pair is keyed `k`.
fn spair_index_of(ps: &Vec<(String, String)>, k: &str) -> (r: Option<usize>)
    ensures
        match r {
            Some(i) => i < ps@.len() && ps@[i as int].0@ == k@ && forall|j: int|
                0 <= j < i ==> ps@[j].0@ != k@,
            None => forall|j: int| 0 <= j < ps@.len() ==> ps@[j].0@ != k@,
        },
{
    let mut i: usize = 0;
    while i < ps.len()
        invariant
            i <= ps@.len(),
            forall|j: int| 0 <= j < i ==> ps@[j].0@ != k@,
        decreases ps@.len() - i,
    {
        if crate::text::str_eq(ps[i].0.as_str(), k) {
            return Some(i);
        }
        i = i + 1;
    }
    None
}

/// Replacing the first pair keyed `k` in place realizes `spair_put`.
proof fn lemma_spair_put_at(
    before: Seq<(Seq<char>, Seq<char>)>,
    after: Seq<(Seq<char>, Seq<char>)>,
    k: Seq<char>,
    v: Seq<char>,
    x: int,
)
    requires
        0 <= x < before.len(),
        after.len() == before.len(),
        forall|j: int| 0 <= j < before.len() && j != x ==> after[j] == before[j],
        after[x] == (k, v),
        before[x].0 == k,
        forall|j: int| 0 <= j < x ==> before[j].0 != k,
    ensures
        after == spair_put(before, k, v),
    decreases x,
{
    if x == 0 {
        assert(spair_put(before, k, v) == seq![(k, v)] + before.drop_first());
        assert(after =~= seq![(k, v)] + before.drop_first());
    } else {
        assert forall|j: int|
            0 <= j < before.drop_first().len() && j != x - 1 implies after.drop_first()[j]
            == before.drop_first()[j] by {
            assert(after.drop_first()[j] == after[j + 1]);
            assert(before.drop_first()[j] == before[j + 1]);
        }
        assert(after.drop_first()[x - 1] == after[x]);
        assert(before.drop_first()[x - 1] == before[x]);
        assert forall|j: int| 0 <= j < x - 1 implies before.drop_first()[j].0 != k by {
            assert(before.drop_first()[j] == before[j + 1]);
        }
        lemma_spair_put_at(before.drop_first(), after.drop_first(), k, v, x - 1);
        assert(before[0].0 != k);
        assert(spair_put(before, k, v) == seq![before[0]] + spair_put(before.drop_first(), k, v));
        assert(after[0] == before[0]);
        assert(after =~= seq![after[0]] + after.drop_first());
    }
}

/// Appending a pair with a fresh key realizes `spair_put`.
proof fn lemma_spair_put_fresh(ps: Seq<(Seq<char>, Seq<char>)>, k: Seq<char>, v: Seq<char>)
    requires
        forall|j: int| 0 <= j < ps.len() ==> ps[j].0 != k,
    ensures
        ps.push((k, v)) == spair_put(ps, k, v),
    decreases ps.len(),
{
    if ps.len() == 0 {
        assert(spair_put(ps, k, v) == seq![(k, v)]);
        assert(ps.push((k, v)) =~= seq![(k, v)]);
    } else {
        assert forall|j: int| 0 <= j < ps.drop_first().len() implies ps.drop_first()[j].0
            != k by {
            assert(ps.drop_first()[j] == ps[j + 1]);
        }
        lemma_spair_put_fresh(ps.drop_first(), k, v);
        assert(ps[0].0 != k);
        assert(spair_put(ps, k, v) == seq![ps[0]] + spair_put(ps.drop_first(), k, v));
        assert(ps.drop_first().push((k, v)) =~= ps.push((k, v)).drop_first());
        assert(ps.push((k, v)) =~= seq![ps[0]] + ps.push((k, v)).drop_first());
    }
}

/// Set one key to one value, replacing the first pair so keyed.
fn spair_set(ps: &mut Vec<(String, String)>, k: String, v: String)
    ensures
        final(ps).deep_view() == spair_put(old(ps).deep_view(), k@, v@),
{
    let ghost orig = ps.deep_view();
    match spair_index_of(ps, k.as_str()) {
        Some(x) => {
            ps.set(x, (k, v));
            proof {
                assert(ps.deep_view().len() == orig.len());
                assert forall|j: int| 0 <= j < orig.len() && j != x implies ps.deep_view()[j]
                    == orig[j] by {
                    assert(ps@[j] == old(ps)@[j]);
                }
                assert forall|j: int| 0 <= j < x implies orig[j].0 != k@ by {
                    assert(orig[j].0 == old(ps)@[j].0@);
                }
                lemma_spair_put_at(orig, ps.deep_view(), k@, v@, x as int);
            }
        }
        None => {
            ps.push((k, v));
            proof {
                assert(ps.deep_view() =~~= orig.push((k@, v@)));
                assert forall|j: int| 0 <= j < orig.len() implies orig[j].0 != k@ by {
                    assert(orig[j].0 == old(ps)@[j].0@);
                }
                lemma_spair_put_fresh(orig, k@, v@);
            }
        }
    }
}

/// Fold raw pairs into a map, later values overriding earlier ones.
fn dedup_pairs(raw: Vec<(String, String)>) -> (r: Vec<(String, String)>)
    ensures
        r.deep_view() == fold_pairs(Seq::empty(), raw.deep_view()),
{
    let ghost rv = raw.deep_view();
    let ghost target = fold_pairs(Seq::empty(), rv);
    let mut out: Vec<(String, String)> = Vec::new();
    proof {
        assert(out.deep_view() =~= Seq::<(Seq<char>, Seq<char>)>::empty());
    }
    let mut i: usize = 0;
    let n: usize = raw.len();
    let mut rest = raw;
    let ghost restv = rest.deep_view();
    let mut acc: Vec<(String, String)> = Vec::new();
    proof {
        assert(acc.deep_view() =~= Seq::<(Seq<char>, Seq<char>)>::empty());
        assert(rest.deep_view() =~= rv.skip(0));
    }
    while i < n
        invariant
            i <= n,
            n == rv.len(),
            rest.deep_view() =~= rv.skip(i as int),
            rest@.len() == n - i,
            fold_pairs(acc.deep_view(), rv.skip(i as int)) == target,
        decreases n - i,
    {
        let ghost tail = rv.skip(i as int);
        proof {
            assert(tail[0] == rest.deep_view()[0]);
            assert(tail.drop_first() =~= rv.skip(i + 1));
        }
        let (k, v) = rest.remove(0);
        proof {
            assert((k@, v@) == tail[0]);
        }
        spair_set(&mut acc, k, v);
        i = i + 1;
        proof {
            assert(rest.deep_view() =~= rv.skip(i as int));
            assert(fold_pairs(acc.deep_view(), rv.skip(i as int)) == target);
        }
    }
    proof {
        assert(rv.skip(n as int).len() == 0);
    }
    acc
}

// ------------------------------------------------------------------
// The body, classified by content type
// ------------------------------------------------------------------

/// The mathematical shape of a classified body.
pub enum BodyVal {
    Json(crate::json::JsonVal),
    Form(Seq<(Seq<char>, Seq<char>)>),
    Raw(Seq<u8>),
}

impl View for Body {
    type V = BodyVal;

    open spec fn view(&self) -> BodyVal {
        match self {
            Body::Json(v) => BodyVal::Json(v@),
            Body::Form(ps) => BodyVal::Form(ps.deep_view()),
            Body::Raw(b) => BodyVal::Raw(b@),
        }
    }
}

/// What `url::form_urlencoded::parse` reads out of these bytes: the decoded
/// pairs, a function of the bytes alone.
pub uninterp spec fn form_pairs_of(b: Seq<u8>) -> Seq<(Seq<char>, Seq<char>)>;

/// Relies on `url::form_urlencoded::parse`: decodes the pairs of a form
/// body; the result depends on the bytes alone.
#[verifier::external_body]
fn parse_form_pairs(b: &[u8]) -> (r: Vec<(String, String)>)
    ensures
        r.deep_view() == form_pairs_of(b@),
{
    url::form_urlencoded::parse(b).into_iter().map(
        |(k, v)| (k.into_owned(), v.into_owned()),
    ).collect()
}

/// How a body is classified: JSON parsed (failures degrade to null), forms
/// decoded into a map with later values overriding, everything else raw.
pub open spec fn body_val_of(ct: Seq<char>, bytes: Seq<u8>) -> BodyVal {
    if ct == "application/json"@ {
        BodyVal::Json(
            match crate::json::json_parse_of(bytes) {
                Some(v) => v,
                None => crate::json::JsonVal::Null,
            },
        )
    } else if ct == "application/x-www-form-urlencoded"@ {
        BodyVal::Form(fold_pairs(Seq::empty(), form_pairs_of(bytes)))
    } else if ct == "mutipart/form-data"@ {
        BodyVal::Json(crate::json::JsonVal::Null)
    } else {
        BodyVal::Raw(bytes)
    }
}

/// The content type governing classification: the first `content-type`
/// value, JSON when absent.
pub open spec fn content_type_of(hs: Seq<(Seq<char>, Seq<Seq<char>>)>) -> Seq<char> {
    match hdr_lookup(hs, "content-type"@) {
        Some(vs) => if vs.len() > 0 {
            vs[0]
        } else {
            "application/json"@
        },
        None => "application/json"@,
    }
}

/// Classify a request body by its content type.
pub fn classify_body(ct: &str, bytes: Vec<u8>) -> (r: Body)
    ensures
        r@ == body_val_of(ct@, bytes@),
{
    let ctc = chars_of(ct);
    if crate::text::chars_eq_str(ctc.as_slice(), "application/json") {
        match crate::json::parse_json_bytes(bytes.as_slice()) {
            Some(v) => Body::Json(v),
            None => Body::Json(JsonValue::Null),
        }
    } else if crate::text::chars_eq_str(ctc.as_slice(), "application/x-www-form-urlencoded") {
        let raw = parse_form_pairs(bytes.as_slice());
        Body::Form(dedup_pairs(raw))
    } else if crate::text::chars_eq_str(ctc.as_slice(), "mutipart/form-data") {
        Body::Json(JsonValue::Null)
    } else {
        Body::Raw(bytes)
    }
}

// ------------------------------------------------------------------
// The assembled request
// ------------------------------------------------------------------

/// The length of the leading run without a question mark.
pub open spec fn qmark_len(s: Seq<char>) -> int
    decreases s.len(),
{
    if s.len() == 0 || s[0] == '?' {
        0
    } else {
        1 + qmark_len(s.drop_first())
    }
}

proof fn lemma_qmark_len_bounds(s: Seq<char>)
    ensures
        0 <= qmark_len(s) <= s.len(),
        forall|i: int| 0 <= i < qmark_len(s) ==> s[i] != '?',
        qmark_len(s) < s.len() ==> s[qmark_len(s)] == '?',
    decreases s.len(),
{
    if s.len() != 0 && s[0] != '?' {
        lemma_qmark_len_bounds(s.drop_first());
        assert forall|i: int| 0 <= i < qmark_len(s) implies s[i] != '?' by {
            if i > 0 {
                assert(s.drop_first()[i - 1] == s[i]);
            }
        }
        if qmark_len(s) < s.len() {
            assert(s.drop_first()[qmark_len(s) - 1] == s[qmark_len(s)]);
        }
    }
}

/// The path part of a request target: everything before the first `?`.
pub open spec fn path_of(s: Seq<char>) -> Seq<char> {
    s.take(qmark_len(s))
}

/// The query part of a request target: everything after the first `?`.
pub open spec fn query_of(s: Seq<char>) -> Seq<char> {
    if qmark_len(s) == s.len() {
        Seq::empty()
    } else {
        s.skip(qmark_len(s) + 1)
    }
}

/// A fully framed request.
pub struct PicoRequest {
    pub method: Method,
    pub path: String,
    pub query: Vec<(String, String)>,
    pub version: String,
    pub headers: Vec<(String, Vec<String>)>,
    pub body: Body,
}

/// Assemble the request: the verb parsed (unknown verbs fall back to GET),
/// the target split at the first `?`, the query scanned for `key=value`
/// pairs, and the body classified by the `content-type` header.
pub fn parse_to_pico_request(http: HttpRequest, body_bytes: Vec<u8>) -> (r: PicoRequest)
    ensures
        r.method == (match crate::route::method_of_verb(http.method@) {
            Some(m) => m,
            None => Method::GET,
        }),
        r.path@ == path_of(http.path@),
        r.query.deep_view() == fold_pairs(Seq::empty(), query_pairs(query_of(http.path@))),
        r.version == http.version,
        r.headers == http.headers,
        r.body@ == body_val_of(content_type_of(http.headers.deep_view()), body_bytes@),
{
    let method = match Method::from_str(http.method.as_str()) {
        Ok(m) => m,
        Err(_) => Method::GET,
    };
    let pc = chars_of(http.path.as_str());
    let mut cut: usize = 0;
    while cut < pc.len() && pc[cut] != '?'
        invariant
            cut <= pc@.len(),
            forall|m: int| 0 <= m < cut ==> pc@[m] != '?',
        decreases pc@.len() - cut,
    {
        cut = cut + 1;
    }
    proof {
        lemma_qmark_len_bounds(pc@);
        assert(qmark_len(pc@) == cut) by {
            if qmark_len(pc@) < cut {
                assert(pc@[qmark_len(pc@)] == '?');
            }
            if qmark_len(pc@) > cut {
                assert((cut as int) < pc@.len());
                assert(pc@[cut as int] != '?');
            }
        }
    }
    let path_part = copy_range(pc.as_slice(), 0, cut);
    proof {
        assert(path_part@ =~= path_of(http.path@));
    }
    let path = string_of(path_part.as_slice());
    let mut raw_pairs: Vec<(String, String)> = Vec::new();
    if cut < pc.len() {
        let qpart = copy_range(pc.as_slice(), cut + 1, pc.len());
        proof {
            assert(qpart@ =~= query_of(http.path@));
        }
        query_scan(qpart.as_slice(), 0, &mut raw_pairs);
        proof {
            assert(qpart@.skip(0) =~= qpart@);
        }
    } else {
        proof {
            assert(query_of(http.path@) =~= Seq::<char>::empty());
        }
    }
    let query = dedup_pairs(raw_pairs);
    let ct: String = match hdr_get(&http.headers, "content-type") {
        Some(vs) => {
            if vs.len() > 0 {
                proof {
                    assert(vs.deep_view()[0] == vs@[0]@);
                }
                let c = chars_of(vs[0].as_str());
                string_of(c.as_slice())
            } else {
                String::from_str("application/json")
            }
        }
        None => String::from_str("application/json"),
    };
    let body = classify_body(ct.as_str(), body_bytes);
    PicoRequest { method, path, query, version: http.version, headers: http.headers, body }
}

} // verus!
