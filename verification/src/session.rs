//! The session codec: claims travel in a signed token inside the
//! `pico_jwt` cookie.
//!
//! Signing and verification go through `jsonwebtoken` behind two trusted
//! wrappers; everything else — cookie splitting, prefix matching, choosing
//! the first token that verifies — is verified code.

use vstd::prelude::*;

use crate::json::{json_of_serde, obj_has_key, serde_of_json, JsonVal, JsonValue};
use crate::text::{chars_of, push_str, string_of, trim_chars, trim_seq};

verus! {

broadcast use vstd::seq::group_seq_axioms;

// ------------------------------------------------------------------
// Which claims the codec carries faithfully
// ------------------------------------------------------------------

/// Lexicographic order on character sequences, by code point.
pub open spec fn chars_lt(a: Seq<char>, b: Seq<char>) -> bool
    decreases a.len(),
{
    if b.len() == 0 {
        false
    } else if a.len() == 0 {
        true
    } else if (a[0] as u32) < (b[0] as u32) {
        true
    } else if a[0] == b[0] {
        chars_lt(a.drop_first(), b.drop_first())
    } else {
        false
    }
}

/// A JSON value the serializer stack reproduces exactly: no numbers
/// anywhere, and every object's keys strictly ascending.
pub open spec fn json_plain(v: JsonVal) -> bool
    decreases v,
{
    match v {
        JsonVal::Null => true,
        JsonVal::Bool(_) => true,
        JsonVal::Num(_) => false,
        JsonVal::Str(_) => true,
        JsonVal::Arr(a) => forall|i: int| 0 <= i < a.len() ==> json_plain(#[trigger] a[i]),
        JsonVal::Obj(o) => {
            &&& forall|i: int| 0 <= i < o.len() ==> json_plain((#[trigger] o[i]).1)
            &&& forall|i: int| 0 <= i < o.len() - 1 ==> chars_lt(
                (#[trigger] o[i]).0,
                o[i + 1].0,
            )
        },
    }
}

/// Claims the session codec round-trips: a plain object without the
/// time- and audience-sensitive fields.
pub open spec fn session_claims_ok(c: JsonVal) -> bool {
    &&& c is Obj
    &&& json_plain(c)
    &&& !obj_has_key(c->Obj_0, "exp"@)
    &&& !obj_has_key(c->Obj_0, "aud"@)
}

// ------------------------------------------------------------------
// The signed token, through jsonwebtoken
// ------------------------------------------------------------------

/// The token `jsonwebtoken` signs for these claims and this secret: HS256,
/// the default header, a function of its arguments alone.
pub uninterp spec fn jwt_token_of(claims: JsonVal, secret: Seq<char>) -> Seq<char>;

/// The characters a signed token is written in: URL-safe base64 and the
/// dot separator.
pub open spec fn jwt_char(c: char) -> bool {
    ||| ('A' as u32) <= (c as u32) <= ('Z' as u32)
    ||| ('a' as u32) <= (c as u32) <= ('z' as u32)
    ||| ('0' as u32) <= (c as u32) <= ('9' as u32)
    ||| c == '-'
    ||| c == '_'
    ||| c == '.'
}

/// The claims a token carries when its signature verifies under this
/// secret, apart from any time-dependent validation; nothing otherwise.
pub uninterp spec fn jwt_payload_of(token: Seq<char>, secret: Seq<char>) -> Option<JsonVal>;

/// Relies on `jsonwebtoken::encode` with HS256 and a plain secret: it
/// cannot fail, the token depends on the claims and the secret alone, it is
/// written in URL-safe base64 with dot separators, and a token signed over
/// plain, time-free claims verifies back to them.
#[verifier::external_body]
fn jwt_encode(claims: &JsonValue, secret: &str) -> (r: Option<String>)
    ensures
        r matches Some(t),
        r matches Some(t) ==> t@ == jwt_token_of(claims@, secret@) && forall|i: int|
            0 <= i < t@.len() ==> jwt_char(#[trigger] t@[i]),
        r matches Some(t) ==> (session_claims_ok(claims@) ==> jwt_payload_of(t@, secret@)
            == Some(claims@)),
{
    jsonwebtoken::encode(
        &jsonwebtoken::Header::default(),
        &serde_of_json(claims),
        &jsonwebtoken::EncodingKey::from_secret(secret.as_bytes()),
    ).ok()
}

/// Relies on `jsonwebtoken::decode::<serde_json::Value>` with HS256 and
/// `exp` not required: a returned value is the token's payload; a payload
/// free of time- and audience-sensitive fields is always returned; a token
/// that does not verify yields nothing.
#[verifier::external_body]
fn jwt_decode(token: &str, secret: &str) -> (r: Option<JsonValue>)
    ensures
        r matches Some(v) ==> jwt_payload_of(token@, secret@) == Some(v@),
        match jwt_payload_of(token@, secret@) {
            Some(c) => session_claims_ok(c) ==> (r matches Some(v) && v@ == c),
            None => r is None,
        },
{
    let mut validation = jsonwebtoken::Validation::new(jsonwebtoken::Algorithm::HS256);
    validation.required_spec_claims.remove("exp");
    jsonwebtoken::decode::<serde_json::Value>(
        token,
        &jsonwebtoken::DecodingKey::from_secret(secret.as_bytes()),
        &validation,
    ).ok().map(|d| json_of_serde(d.claims))
}

// ------------------------------------------------------------------
// The cookie carrying the token
// ------------------------------------------------------------------

/// Whether `s` starts with `p`.
pub open spec fn starts_with(s: Seq<char>, p: Seq<char>) -> bool {
    s.len() >= p.len() && s.subrange(0, p.len() as int) == p
}

/// The length of the leading run without a semicolon.
pub open spec fn semi_len(s: Seq<char>) -> int
    decreases s.len(),
{
    if s.len() == 0 || s[0] == ';' {
        0
    } else {
        1 + semi_len(s.drop_first())
    }
}

pub proof fn lemma_semi_len_bounds(s: Seq<char>)
    ensures
        0 <= semi_len(s) <= s.len(),
        forall|i: int| 0 <= i < semi_len(s) ==> s[i] != ';',
        semi_len(s) < s.len() ==> s[semi_len(s)] == ';',
    decreases s.len(),
{
    if s.len() != 0 && s[0] != ';' {
        lemma_semi_len_bounds(s.drop_first());
        assert forall|i: int| 0 <= i < semi_len(s) implies s[i] != ';' by {
            if i > 0 {
                assert(s.drop_first()[i - 1] == s[i]);
            }
        }
        if semi_len(s) < s.len() {
            assert(s.drop_first()[semi_len(s) - 1] == s[semi_len(s)]);
        }
    }
}

/// A cookie header value split on `;`, every piece kept.
pub open spec fn semi_split(s: Seq<char>) -> Seq<Seq<char>>
    decreases s.len(),
    via semi_split_dec
{
    let k = semi_len(s);
    if k == s.len() {
        seq![s]
    } else {
        seq![s.subrange(0, k)] + semi_split(s.skip(k + 1))
    }
}

#[via_fn]
proof fn semi_split_dec(s: Seq<char>) {
    lemma_semi_len_bounds(s);
}

/// The session token one cookie piece offers: trimmed, and only if it
/// carries the `pico_jwt=` prefix, which is stripped.
pub open spec fn piece_tokens(p: Seq<char>) -> Seq<Seq<char>> {
    let t = trim_seq(p);
    if starts_with(t, "pico_jwt="@) {
        seq![t.skip("pico_jwt="@.len() as int)]
    } else {
        Seq::empty()
    }
}

/// The session tokens among cookie pieces, in order.
pub open spec fn tokens_in_pieces(ps: Seq<Seq<char>>) -> Seq<Seq<char>>
    decreases ps.len(),
{
    if ps.len() == 0 {
        Seq::empty()
    } else {
        piece_tokens(ps[0]) + tokens_in_pieces(ps.drop_first())
    }
}

/// The session tokens offered by the `cookie` header values, in order.
pub open spec fn cookie_tokens(vals: Seq<Seq<char>>) -> Seq<Seq<char>>
    decreases vals.len(),
{
    if vals.len() == 0 {
        Seq::empty()
    } else {
        tokens_in_pieces(semi_split(vals[0])) + cookie_tokens(vals.drop_first())
    }
}

/// Split a cookie header value on `;` from position `i` on.
fn semi_split_exec_from(v: &[char], i: usize, out: &mut Vec<Vec<char>>)
    requires
        i <= v@.len(),
    ensures
        crate::route::views_of(final(out)@) == crate::route::views_of(old(out)@) + semi_split(
            v@.skip(i as int),
        ),
    decreases v@.len() - i,
{
    let ghost rest = v@.skip(i as int);
    let mut j: usize = i;
    let mut cur: Vec<char> = Vec::new();
    while j < v.len() && v[j] != ';'
        invariant
            i <= j <= v@.len(),
            forall|m: int| i <= m < j ==> v@[m] != ';',
            cur@ == v@.subrange(i as int, j as int),
        decreases v@.len() - j,
    {
        cur.push(v[j]);
        j = j + 1;
        proof {
            assert(cur@ =~= v@.subrange(i as int, j as int));
        }
    }
    proof {
        lemma_semi_len_bounds(rest);
        assert forall|m: int| 0 <= m < j - i implies rest[m] != ';' by {
            assert(rest[m] == v@[i + m]);
        }
        if (j as int) < v@.len() {
            assert(rest[j - i] == v@[j as int]);
        }
        assert(semi_len(rest) == j - i) by {
            if semi_len(rest) < j - i {
                assert(rest[semi_len(rest)] == ';');
                assert(rest[semi_len(rest)] != ';');
            } else if semi_len(rest) > j - i {
                assert(rest[j - i] != ';');
                assert((j as int) < v@.len());
            }
        }
        assert(cur@ =~= rest.subrange(0, semi_len(rest)));
    }
    let ghost before = crate::route::views_of(out@);
    out.push(cur);
    proof {
        assert(crate::route::views_of(out@) =~= before.push(cur@));
    }
    if j == v.len() {
        proof {
            assert(semi_len(rest) == rest.len());
            assert(semi_split(rest) == seq![rest]);
            assert(rest.subrange(0, semi_len(rest)) =~= rest);
            assert(crate::route::views_of(out@) =~= crate::route::views_of(old(out)@)
                + semi_split(rest));
        }
    } else {
        semi_split_exec_from(v, j + 1, out);
        proof {
            assert(rest.skip(semi_len(rest) + 1) =~= v@.skip(j + 1));
            assert(semi_split(rest) == seq![rest.subrange(0, semi_len(rest))] + semi_split(
                rest.skip(semi_len(rest) + 1),
            ));
            assert(crate::route::views_of(out@) =~= crate::route::views_of(old(out)@)
                + semi_split(rest));
        }
    }
}

/// Whether the characters start with the view of a literal.
pub fn starts_with_exec(v: &[char], p: &str) -> (r: bool)
    ensures
        r == starts_with(v@, p@),
{
    let pc = chars_of(p);
    if v.len() < pc.len() {
        return false;
    }
    let mut i: usize = 0;
    while i < pc.len()
        invariant
            i <= pc@.len(),
            pc@ == p@,
            pc@.len() <= v@.len(),
            forall|m: int| 0 <= m < i ==> v@[m] == pc@[m],
        decreases pc@.len() - i,
    {
        if v[i] != pc[i] {
            proof {
                assert(v@.subrange(0, p@.len() as int)[i as int] == v@[i as int]);
            }
            return false;
        }
        i = i + 1;
    }
    proof {
        assert(v@.subrange(0, p@.len() as int) =~= p@);
    }
    true
}

/// The session tokens offered by these cookie header values, in order.
fn collect_tokens(vals: &Vec<String>) -> (r: Vec<Vec<char>>)
    ensures
        crate::route::views_of(r@) == cookie_tokens(vals.deep_view()),
{
    let mut out: Vec<Vec<char>> = Vec::new();
    let mut i: usize = 0;
    while i < vals.len()
        invariant
            i <= vals@.len(),
            crate::route::views_of(out@) == cookie_tokens(vals.deep_view().take(i as int)),
        decreases vals@.len() - i,
    {
        let ghost upto = vals.deep_view().take(i as int);
        let cs = chars_of(vals[i].as_str());
        let mut pieces: Vec<Vec<char>> = Vec::new();
        semi_split_exec_from(cs.as_slice(), 0, &mut pieces);
        proof {
            assert(cs@.skip(0) =~= cs@);
            assert(crate::route::views_of(pieces@) =~= semi_split(vals.deep_view()[i as int]));
        }
        let ghost split_pieces = crate::route::views_of(pieces@);
        let mut j: usize = 0;
        while j < pieces.len()
            invariant
                j <= pieces@.len(),
                split_pieces == crate::route::views_of(pieces@),
                crate::route::views_of(out@) == cookie_tokens(vals.deep_view().take(i as int))
                    + tokens_in_pieces(split_pieces.take(j as int)),
            decreases pieces@.len() - j,
        {
            let ghost done = crate::route::views_of(out@);
            let t = trim_chars(pieces[j].as_slice());
            proof {
                assert(split_pieces[j as int] == pieces@[j as int]@);
            }
            if starts_with_exec(t.as_slice(), "pico_jwt=") {
                proof {
                    reveal_strlit("pico_jwt=");
                    assert(t@.len() >= 9);
                }
                let mut tok: Vec<char> = Vec::new();
                let mut k: usize = 9;
                proof {
                    reveal_strlit("pico_jwt=");
                    assert("pico_jwt="@.len() == 9);
                }
                while k < t.len()
                    invariant
                        9 <= k <= t@.len() || (t@.len() < 9 && k == 9),
                        tok@ == t@.skip(9).take(k - 9),
                    decreases t@.len() - k,
                {
                    tok.push(t[k]);
                    k = k + 1;
                    proof {
                        assert(tok@ =~= t@.skip(9).take(k - 9));
                    }
                }
                proof {
                    assert(tok@ =~= t@.skip(9));
                }
                let ghost tokv = tok@;
                out.push(tok);
                proof {
                    assert(crate::route::views_of(out@) =~= done.push(tokv));
                }
            }
            j = j + 1;
            proof {
                reveal_strlit("pico_jwt=");
                assert("pico_jwt="@.len() == 9);
                let tp = split_pieces.take(j as int);
                assert(tp =~= split_pieces.take(j - 1).push(split_pieces[j - 1]));
                lemma_tokens_in_pieces_snoc(split_pieces.take(j - 1), split_pieces[j - 1]);
                assert(t@ == trim_seq(split_pieces[j - 1]));
                assert(crate::route::views_of(out@) =~= cookie_tokens(
                    vals.deep_view().take(i as int),
                ) + tokens_in_pieces(tp));
            }
        }
        i = i + 1;
        proof {
            assert(split_pieces.take(pieces@.len() as int) =~= split_pieces);
            let tv = vals.deep_view().take(i as int);
            assert(tv =~= vals.deep_view().take(i - 1).push(vals.deep_view()[i - 1]));
            lemma_cookie_tokens_snoc(vals.deep_view().take(i - 1), vals.deep_view()[i - 1]);
            assert(crate::route::views_of(out@) =~= cookie_tokens(tv));
        }
    }
    proof {
        assert(vals.deep_view().take(vals@.len() as int) =~= vals.deep_view());
    }
    out
}

/// Extending the pieces by one extends the tokens by that piece's tokens.
proof fn lemma_tokens_in_pieces_snoc(ps: Seq<Seq<char>>, p: Seq<char>)
    ensures
        tokens_in_pieces(ps.push(p)) == tokens_in_pieces(ps) + piece_tokens(p),
    decreases ps.len(),
{
    let w = ps.push(p);
    assert(tokens_in_pieces(w) == piece_tokens(w[0]) + tokens_in_pieces(w.drop_first()));
    if ps.len() == 0 {
        assert(w[0] == p);
        assert(w.drop_first() =~= Seq::<Seq<char>>::empty());
        assert(tokens_in_pieces(Seq::<Seq<char>>::empty()) == Seq::<Seq<char>>::empty());
        assert(tokens_in_pieces(w) =~= tokens_in_pieces(ps) + piece_tokens(p));
    } else {
        assert(w[0] == ps[0]);
        assert(w.drop_first() =~= ps.drop_first().push(p));
        lemma_tokens_in_pieces_snoc(ps.drop_first(), p);
        assert(tokens_in_pieces(ps) == piece_tokens(ps[0]) + tokens_in_pieces(ps.drop_first()));
        assert(tokens_in_pieces(w) =~= tokens_in_pieces(ps) + piece_tokens(p));
    }
}

/// Extending the values by one extends the tokens by that value's tokens.
proof fn lemma_cookie_tokens_snoc(vals: Seq<Seq<char>>, v: Seq<char>)
    ensures
        cookie_tokens(vals.push(v)) == cookie_tokens(vals) + tokens_in_pieces(semi_split(v)),
    decreases vals.len(),
{
    let w = vals.push(v);
    assert(cookie_tokens(w) == tokens_in_pieces(semi_split(w[0])) + cookie_tokens(
        w.drop_first(),
    ));
    if vals.len() == 0 {
        assert(w[0] == v);
        assert(w.drop_first() =~= Seq::<Seq<char>>::empty());
        assert(cookie_tokens(Seq::<Seq<char>>::empty()) == Seq::<Seq<char>>::empty());
        assert(cookie_tokens(w) =~= cookie_tokens(vals) + tokens_in_pieces(semi_split(v)));
    } else {
        assert(w[0] == vals[0]);
        assert(w.drop_first() =~= vals.drop_first().push(v));
        lemma_cookie_tokens_snoc(vals.drop_first(), v);
        assert(cookie_tokens(vals) == tokens_in_pieces(semi_split(vals[0])) + cookie_tokens(
            vals.drop_first(),
        ));
        assert(cookie_tokens(w) =~= cookie_tokens(vals) + tokens_in_pieces(semi_split(v)));
    }
}

// ------------------------------------------------------------------
// The codec itself
// ------------------------------------------------------------------

/// The value of the `Set-Cookie` header issued for a session token.
pub open spec fn session_cookie_text(token: Seq<char>) -> Seq<char> {
    "pico_jwt="@ + token + "; HttpOnly; Path=/;"@
}

/// Sign claims into a `Set-Cookie` value.
pub fn encode_session(claims: &JsonValue, secret: &str) -> (r: Option<String>)
    ensures
        r matches Some(v),
        r matches Some(v) ==> v@ == session_cookie_text(jwt_token_of(claims@, secret@)),
        forall|i: int|
            0 <= i < jwt_token_of(claims@, secret@).len() ==> jwt_char(
                #[trigger] jwt_token_of(claims@, secret@)[i],
            ),
        session_claims_ok(claims@) ==> jwt_payload_of(
            jwt_token_of(claims@, secret@),
            secret@,
        ) == Some(claims@),
{
    match jwt_encode(claims, secret) {
        Some(t) => {
            let mut out: Vec<char> = Vec::new();
            push_str(&mut out, "pico_jwt=");
            push_str(&mut out, t.as_str());
            push_str(&mut out, "; HttpOnly; Path=/;");
            proof {
                assert(out@ =~= session_cookie_text(t@));
            }
            Some(string_of(out.as_slice()))
        }
        None => {
            proof {
                assert(false);
            }
            None
        }
    }
}

/// What decoding promises: a returned value is the payload of one of the
/// offered tokens; when the first token's payload is a well-behaved claims
/// object it is returned; when no token verifies, nothing is.
pub open spec fn decode_session_post(
    toks: Seq<Seq<char>>,
    secret: Seq<char>,
    r: Option<JsonValue>,
) -> bool {
    &&& (r matches Some(c) ==> exists|x: int|
        0 <= x < toks.len() && jwt_payload_of(#[trigger] toks[x], secret) == Some(c@))
    &&& ((toks.len() > 0 && jwt_payload_of(toks[0], secret) is Some && session_claims_ok(
        jwt_payload_of(toks[0], secret)->Some_0,
    )) ==> (r matches Some(v) && jwt_payload_of(toks[0], secret) == Some(v@)))
    &&& ((forall|x: int|
        0 <= x < toks.len() ==> jwt_payload_of(#[trigger] toks[x], secret) is None) ==> r
        is None)
}

/// Decode a session from the `cookie` header values: try the offered
/// tokens in order, first one that verifies wins; none is not an error.
pub fn decode_session(cookie_values: &Vec<String>, secret: &str) -> (r: Option<JsonValue>)
    ensures
        decode_session_post(cookie_tokens(cookie_values.deep_view()), secret@, r),
{
    let ghost toks = cookie_tokens(cookie_values.deep_view());
    let tokens = collect_tokens(cookie_values);
    let mut result: Option<JsonValue> = None;
    let mut i: usize = 0;
    while i < tokens.len() && result.is_none()
        invariant
            i <= tokens@.len(),
            crate::route::views_of(tokens@) == toks,
            toks.len() == tokens@.len(),
            result is None ==> forall|x: int|
                0 <= x < i ==> !(jwt_payload_of(#[trigger] toks[x], secret@) is Some
                    && session_claims_ok(jwt_payload_of(toks[x], secret@)->Some_0)),
            result matches Some(c) ==> exists|x: int|
                0 <= x < toks.len() && jwt_payload_of(#[trigger] toks[x], secret@) == Some(c@),
            result matches Some(c) ==> (toks.len() > 0 && jwt_payload_of(toks[0], secret@)
                is Some && session_claims_ok(jwt_payload_of(toks[0], secret@)->Some_0)
                ==> jwt_payload_of(toks[0], secret@) == Some(c@)),
        decreases tokens@.len() - i,
    {
        let ts = string_of(tokens[i].as_slice());
        proof {
            assert(toks[i as int] == tokens@[i as int]@);
        }
        match jwt_decode(ts.as_str(), secret) {
            Some(c) => {
                proof {
                    assert(jwt_payload_of(toks[i as int], secret@) == Some(c@));
                    if toks.len() > 0 && jwt_payload_of(toks[0], secret@) is Some
                        && session_claims_ok(jwt_payload_of(toks[0], secret@)->Some_0) {
                        assert(i == 0);
                    }
                }
                result = Some(c);
            }
            None => {}
        }
        i = i + 1;
    }
    proof {
        assert(decode_session_post(toks, secret@, result));
    }
    result
}

/// Law: encoding then decoding a session with the same secret yields the
/// original claims. Stated for claims in the codec's image: a JSON object
/// free of numbers, with strictly sorted keys and no time- or
/// audience-sensitive fields.
pub fn session_round_trip(claims: &JsonValue, secret: &str) -> (r: Option<JsonValue>)
    requires
        session_claims_ok(claims@),
    ensures
        r matches Some(v) && v@ == claims@,
{
    let cookie = match encode_session(claims, secret) {
        Some(c) => c,
        None => {
            proof {
                assert(false);
            }
            return None;
        }
    };
    let mut vals: Vec<String> = Vec::new();
    vals.push(cookie);
    let ghost token = jwt_token_of(claims@, secret@);
    proof {
        let cv = session_cookie_text(token);
        assert(vals.deep_view() =~= seq![cv]);
        lemma_session_cookie_first_token(token);
        // One cookie value: its tokens are all the tokens offered.
        assert(seq![cv].drop_first() =~= Seq::<Seq<char>>::empty());
        assert(cookie_tokens(seq![cv]) == tokens_in_pieces(semi_split(cv)) + cookie_tokens(
            Seq::<Seq<char>>::empty(),
        ));
        assert(cookie_tokens(seq![cv]) =~= tokens_in_pieces(semi_split(cv)));
        assert(cookie_tokens(vals.deep_view())[0] == token);
    }
    decode_session(&vals, secret)
}

/// The first session token the built `Set-Cookie` text offers back is the
/// token it was built from: the `pico_jwt=` piece comes first and needs no
/// trimming, since the token itself holds neither `;` nor whitespace.
proof fn lemma_session_cookie_first_token(token: Seq<char>)
    requires
        forall|i: int| 0 <= i < token.len() ==> jwt_char(#[trigger] token[i]),
    ensures
        tokens_in_pieces(semi_split(session_cookie_text(token))).len() >= 1,
        tokens_in_pieces(semi_split(session_cookie_text(token)))[0] == token,
{
    reveal_strlit("pico_jwt=");
    reveal_strlit("; HttpOnly; Path=/;");
    let pre = "pico_jwt="@;
    let suf = "; HttpOnly; Path=/;"@;
    let text = session_cookie_text(token);
    assert(pre =~= seq!['p', 'i', 'c', 'o', '_', 'j', 'w', 't', '=']);
    assert(pre.len() == 9);
    assert(suf[0] == ';');
    let n = token.len() as int;
    assert forall|i: int| 0 <= i < 9 + n implies text[i] != ';' by {
        if i < 9 {
            assert(text[i] == pre[i]);
        } else {
            assert(text[i] == token[i - 9]);
            assert(jwt_char(token[i - 9]));
        }
    }
    assert(text[9 + n] == suf[0]);
    lemma_semi_len_bounds(text);
    assert(semi_len(text) == 9 + n) by {
        if semi_len(text) < 9 + n {
            assert(text[semi_len(text)] == ';');
            assert(text[semi_len(text)] != ';');
        } else if semi_len(text) > 9 + n {
            assert(text[9 + n] != ';');
        }
    }
    let k = semi_len(text);
    assert(k < text.len());
    let ps = semi_split(text);
    assert(ps == seq![text.subrange(0, k)] + semi_split(text.skip(k + 1)));
    let p0 = text.subrange(0, k);
    assert(ps[0] == p0);
    assert(ps.len() >= 1);
    assert(p0 =~= pre + token);
    // The first piece needs no trimming.
    assert(p0[0] == 'p');
    assert(!crate::text::is_ws(p0[0]));
    assert(crate::text::ws_prefix_len(p0) == 0);
    if n > 0 {
        assert(p0[p0.len() - 1] == token[n - 1]);
        assert(jwt_char(token[n - 1]));
        assert(!crate::text::is_ws(p0.last()));
    } else {
        assert(p0[p0.len() - 1] == '=');
        assert(!crate::text::is_ws(p0.last()));
    }
    assert(crate::text::ws_suffix_len(p0) == 0);
    assert(trim_seq(p0) =~= p0);
    assert(p0.subrange(0, 9) =~= pre);
    assert(starts_with(p0, pre));
    assert(trim_seq(p0).skip(9) =~= token);
    assert(tokens_in_pieces(ps) == seq![trim_seq(ps[0]).skip(9)] + tokens_in_pieces(
        ps.drop_first(),
    ));
    assert(tokens_in_pieces(ps)[0] == token);
    assert(tokens_in_pieces(ps).len() >= 1);
}

} // verus!
