//! The request pipeline: from a framed request to a response, through
//! route resolution, handler selection, parameter assembly, scripted
//! hooks, session issuance and content negotiation.
//!
//! The bound server function itself and the view renderer are outside the
//! library: the pipeline stops at a `Pending` step carrying the call to
//! make, and at a `RenderView` completion carrying the page to render.

use vstd::prelude::*;

use crate::hooks::{lua_call_1, lua_call_2, LuaOutcome};
use crate::http::{error_document, Body, PicoResponse, ResponseCode};
use crate::json::{
    json_text, obj_has_key, obj_put, view_obj, JsonVal, JsonValue,
};
use crate::route::{
    defs_lookup, join_slash, segments_of, Method, Route, RouteHandler, RouteTree,
};
use crate::session::{decode_session, encode_session, starts_with};
use crate::text::{chars_of, push_str, string_of, trim_seq};
use crate::wire::{hdr_lookup, PicoRequest};

verus! {

broadcast use vstd::seq::group_seq_axioms;

// ------------------------------------------------------------------
// Deep copies of JSON values
// ------------------------------------------------------------------

/// Copy a JSON value.
pub fn clone_json(v: &JsonValue) -> (r: JsonValue)
    ensures
        r@ == v@,
    decreases v,
{
    match v {
        JsonValue::Null => JsonValue::Null,
        JsonValue::Bool(b) => JsonValue::Bool(*b),
        JsonValue::Num(s) => JsonValue::Num(s.clone()),
        JsonValue::Str(s) => JsonValue::Str(s.clone()),
        JsonValue::Array(a) => {
            let mut out: Vec<JsonValue> = Vec::new();
            clone_arr_into(a, 0, &mut out);
            proof {
                crate::json::lemma_view_arr(a@);
                assert(crate::json::view_arr(a@).skip(0) =~= crate::json::view_arr(a@));
            }
            JsonValue::Array(out)
        }
        JsonValue::Object(o) => {
            let mut out: Vec<(String, JsonValue)> = Vec::new();
            clone_obj_into(o, 0, &mut out);
            proof {
                crate::json::lemma_view_obj(o@);
                assert(view_obj(o@).skip(0) =~= view_obj(o@));
            }
            JsonValue::Object(out)
        }
    }
}

/// Copy the elements from `i` on.
fn clone_arr_into(a: &Vec<JsonValue>, i: usize, out: &mut Vec<JsonValue>)
    requires
        i <= a@.len(),
    ensures
        crate::json::view_arr(final(out)@) == crate::json::view_arr(old(out)@)
            + crate::json::view_arr(a@).skip(i as int),
    decreases a, a@.len() - i,
{
    proof {
        crate::json::lemma_view_arr(a@);
        crate::json::lemma_view_arr(out@);
    }
    if i < a.len() {
        let ghost before = crate::json::view_arr(out@);
        let c = clone_json(&a[i]);
        let ghost cv = c@;
        out.push(c);
        proof {
            crate::json::lemma_view_arr(out@);
            assert(crate::json::view_arr(out@) =~= before.push(cv));
        }
        clone_arr_into(a, i + 1, out);
        proof {
            assert(crate::json::view_arr(a@).skip(i as int) =~= seq![
                crate::json::view_arr(a@)[i as int],
            ] + crate::json::view_arr(a@).skip(i + 1));
            assert(crate::json::view_arr(out@) =~= crate::json::view_arr(old(out)@)
                + crate::json::view_arr(a@).skip(i as int));
        }
    } else {
        proof {
            assert(crate::json::view_arr(a@).skip(i as int).len() == 0);
            assert(crate::json::view_arr(out@) =~= crate::json::view_arr(old(out)@)
                + crate::json::view_arr(a@).skip(i as int));
        }
    }
}

/// Copy the members from `i` on.
fn clone_obj_into(o: &Vec<(String, JsonValue)>, i: usize, out: &mut Vec<(String, JsonValue)>)
    requires
        i <= o@.len(),
    ensures
        view_obj(final(out)@) == view_obj(old(out)@) + view_obj(o@).skip(i as int),
    decreases o, o@.len() - i,
{
    proof {
        crate::json::lemma_view_obj(o@);
        crate::json::lemma_view_obj(out@);
    }
    if i < o.len() {
        let ghost before = view_obj(out@);
        let k = o[i].0.clone();
        let c = clone_json(&o[i].1);
        let ghost kv = (k@, c@);
        out.push((k, c));
        proof {
            crate::json::lemma_view_obj(out@);
            assert(view_obj(out@) =~= before.push(kv));
        }
        clone_obj_into(o, i + 1, out);
        proof {
            assert(view_obj(o@).skip(i as int) =~= seq![view_obj(o@)[i as int]] + view_obj(
                o@,
            ).skip(i + 1));
            assert(view_obj(out@) =~= view_obj(old(out)@) + view_obj(o@).skip(i as int));
        }
    } else {
        proof {
            assert(view_obj(o@).skip(i as int).len() == 0);
            assert(view_obj(out@) =~= view_obj(old(out)@) + view_obj(o@).skip(i as int));
        }
    }
}

// ------------------------------------------------------------------
// Assembling the candidate input
// ------------------------------------------------------------------

/// Members folded into an object, later values overriding earlier ones.
pub open spec fn fold_obj_members(
    acc: Seq<(Seq<char>, JsonVal)>,
    ms: Seq<(Seq<char>, JsonVal)>,
) -> Seq<(Seq<char>, JsonVal)>
    decreases ms.len(),
{
    if ms.len() == 0 {
        acc
    } else {
        fold_obj_members(obj_put(acc, ms[0].0, ms[0].1), ms.drop_first())
    }
}

/// String pairs folded in as JSON strings.
pub open spec fn fold_str_pairs(
    acc: Seq<(Seq<char>, JsonVal)>,
    ps: Seq<(Seq<char>, Seq<char>)>,
) -> Seq<(Seq<char>, JsonVal)>
    decreases ps.len(),
{
    if ps.len() == 0 {
        acc
    } else {
        fold_str_pairs(obj_put(acc, ps[0].0, JsonVal::Str(ps[0].1)), ps.drop_first())
    }
}

/// The fields a body contributes: a JSON object's members, or a form's
/// pairs as strings; anything else contributes nothing.
pub open spec fn body_fields(b: crate::wire::BodyVal) -> Seq<(Seq<char>, JsonVal)> {
    match b {
        crate::wire::BodyVal::Json(v) => match v {
            JsonVal::Obj(o) => fold_obj_members(Seq::empty(), o),
            _ => Seq::empty(),
        },
        crate::wire::BodyVal::Form(ps) => fold_str_pairs(Seq::empty(), ps),
        crate::wire::BodyVal::Raw(_) => Seq::empty(),
    }
}

/// The candidate input: body fields first, path parameters on top.
pub open spec fn merged_input(
    b: crate::wire::BodyVal,
    params: Seq<(Seq<char>, Seq<char>)>,
) -> Seq<(Seq<char>, JsonVal)> {
    fold_str_pairs(body_fields(b), params)
}

/// Merge body fields and path parameters into the candidate input, the
/// parameters overriding same-named fields.
pub fn assemble_input(body: Body, params: Vec<(String, String)>) -> (r: Vec<(String, JsonValue)>)
    ensures
        view_obj(r@) == merged_input(body@, params.deep_view()),
{
    let ghost bv = body@;
    let mut acc: Vec<(String, JsonValue)> = Vec::new();
    proof {
        crate::json::lemma_view_obj(acc@);
        assert(view_obj(acc@) =~= Seq::<(Seq<char>, JsonVal)>::empty());
    }
    match body {
        Body::Json(v) => {
            match v {
                JsonValue::Object(members) => {
                    let ghost ms = view_obj(members@);
                    let ghost target = fold_obj_members(Seq::empty(), ms);
                    let mut rest = members;
                    while rest.len() > 0
                        invariant
                            fold_obj_members(view_obj(acc@), view_obj(rest@)) == target,
                        decreases rest@.len(),
                    {
                        let ghost cur = view_obj(rest@);
                        proof {
                            crate::json::lemma_view_obj(rest@);
                            assert(cur[0] == (rest@[0].0@, rest@[0].1@));
                        }
                        let (k, x) = rest.remove(0);
                        crate::json::obj_set(&mut acc, k, x);
                        proof {
                            crate::json::lemma_view_obj(rest@);
                            assert(view_obj(rest@) =~= cur.drop_first());
                            assert(fold_obj_members(view_obj(acc@), view_obj(rest@))
                                == target);
                        }
                    }
                    proof {
                        crate::json::lemma_view_obj(rest@);
                        assert(view_obj(rest@).len() == 0);
                        assert(view_obj(acc@) == target);
                        assert(bv matches crate::wire::BodyVal::Json(jv) && jv
                            == JsonVal::Obj(ms));
                    }
                }
                _ => {
                    proof {
                        assert(body_fields(bv) =~= Seq::<(Seq<char>, JsonVal)>::empty());
                    }
                }
            }
        }
        Body::Form(ps) => {
            let ghost pv = ps.deep_view();
            let ghost target = fold_str_pairs(Seq::empty(), pv);
            let mut rest = ps;
            while rest.len() > 0
                invariant
                    fold_str_pairs(view_obj(acc@), rest.deep_view()) == target,
                decreases rest@.len(),
            {
                let ghost cur = rest.deep_view();
                proof {
                    assert(cur[0] == (rest@[0].0@, rest@[0].1@));
                }
                let (k, x) = rest.remove(0);
                crate::json::obj_set(&mut acc, k, JsonValue::Str(x));
                proof {
                    assert(rest.deep_view() =~= cur.drop_first());
                    assert(fold_str_pairs(view_obj(acc@), rest.deep_view()) == target);
                }
            }
            proof {
                assert(rest.deep_view().len() == 0);
                assert(view_obj(acc@) == target);
            }
        }
        Body::Raw(_) => {
            proof {
                assert(body_fields(bv) =~= Seq::<(Seq<char>, JsonVal)>::empty());
            }
        }
    }
    proof {
        assert(view_obj(acc@) == body_fields(bv));
    }
    let ghost pv = params.deep_view();
    let ghost target = fold_str_pairs(body_fields(bv), pv);
    let mut rest = params;
    while rest.len() > 0
        invariant
            fold_str_pairs(view_obj(acc@), rest.deep_view()) == target,
        decreases rest@.len(),
    {
        let ghost cur = rest.deep_view();
        proof {
            assert(cur[0] == (rest@[0].0@, rest@[0].1@));
        }
        let (k, x) = rest.remove(0);
        crate::json::obj_set(&mut acc, k, JsonValue::Str(x));
        proof {
            assert(rest.deep_view() =~= cur.drop_first());
            assert(fold_str_pairs(view_obj(acc@), rest.deep_view()) == target);
        }
    }
    proof {
        assert(rest.deep_view().len() == 0);
    }
    acc
}

/// Merge a hook's replacement into the input: an object's members override
/// same-named entries; anything else changes nothing.
pub fn merge_replacement(input: &mut Vec<(String, JsonValue)>, replacement: JsonValue)
    ensures
        view_obj(final(input)@) == (match replacement@ {
            JsonVal::Obj(ms) => fold_obj_members(view_obj(old(input)@), ms),
            _ => view_obj(old(input)@),
        }),
{
    let ghost rv = replacement@;
    match replacement {
        JsonValue::Object(members) => {
            let ghost ms = view_obj(members@);
            let ghost target = fold_obj_members(view_obj(input@), ms);
            let mut rest = members;
            while rest.len() > 0
                invariant
                    fold_obj_members(view_obj(input@), view_obj(rest@)) == target,
                decreases rest@.len(),
            {
                let ghost cur = view_obj(rest@);
                proof {
                    crate::json::lemma_view_obj(rest@);
                    assert(cur[0] == (rest@[0].0@, rest@[0].1@));
                }
                let (k, x) = rest.remove(0);
                crate::json::obj_set(input, k, x);
                proof {
                    crate::json::lemma_view_obj(rest@);
                    assert(view_obj(rest@) =~= cur.drop_first());
                    assert(fold_obj_members(view_obj(input@), view_obj(rest@)) == target);
                }
            }
            proof {
                crate::json::lemma_view_obj(rest@);
                assert(view_obj(rest@).len() == 0);
            }
        }
        _ => {}
    }
}

// ------------------------------------------------------------------
// Validation: every declared parameter must be present
// ------------------------------------------------------------------

/// The first declared parameter missing from the input, if any.
pub open spec fn first_missing(
    params: Seq<Seq<char>>,
    input: Seq<(Seq<char>, JsonVal)>,
) -> Option<Seq<char>>
    decreases params.len(),
{
    if params.len() == 0 {
        None
    } else if !obj_has_key(input, params[0]) {
        Some(params[0])
    } else {
        first_missing(params.drop_first(), input)
    }
}

/// Find the first declared parameter missing from the input.
pub fn find_missing_param(params: &Vec<String>, input: &Vec<(String, JsonValue)>) -> (r: Option<
    usize,
>)
    ensures
        match r {
            Some(i) => i < params@.len() && first_missing(params.deep_view(), view_obj(input@))
                == Some(params@[i as int]@),
            None => first_missing(params.deep_view(), view_obj(input@)) is None,
        },
{
    let ghost pv = params.deep_view();
    let ghost iv = view_obj(input@);
    proof {
        assert(pv.skip(0) =~= pv);
    }
    let mut i: usize = 0;
    while i < params.len()
        invariant
            i <= pv.len(),
            pv.len() == params@.len(),
            pv == params.deep_view(),
            iv == view_obj(input@),
            first_missing(pv, iv) == first_missing(pv.skip(i as int), iv),
        decreases pv.len() - i,
    {
        let ghost tail = pv.skip(i as int);
        proof {
            assert(tail[0] == params@[i as int]@);
            assert(tail.drop_first() =~= pv.skip(i + 1));
        }
        match crate::json::obj_get(input, params[i].as_str()) {
            Some(_) => {}
            None => {
                return Some(i);
            }
        }
        i = i + 1;
    }
    proof {
        assert(pv.skip(pv.len() as int).len() == 0);
    }
    None
}

// ------------------------------------------------------------------
// Hook failure classification
// ------------------------------------------------------------------

/// Whether `n` occurs in `h` starting at `i`.
pub open spec fn sub_at(h: Seq<char>, n: Seq<char>, i: int) -> bool {
    0 <= i && i + n.len() <= h.len() && h.subrange(i, i + n.len()) == n
}

/// Whether `n` occurs anywhere in `h`.
pub open spec fn contains_sub(h: Seq<char>, n: Seq<char>) -> bool {
    exists|i: int| sub_at(h, n, i)
}

/// The first position where `n` occurs in `h`, from `i` on.
pub open spec fn first_sub_from(h: Seq<char>, n: Seq<char>, i: int) -> Option<int>
    decreases h.len() + 1 - i,
{
    if i < 0 || i + n.len() > h.len() {
        None
    } else if sub_at(h, n, i) {
        Some(i)
    } else {
        first_sub_from(h, n, i + 1)
    }
}

/// Whether `n` occurs at `i` in `h`.
fn match_at(h: &[char], n: &Vec<char>, i: usize) -> (r: bool)
    requires
        i + n@.len() <= h@.len(),
    ensures
        r == sub_at(h@, n@, i as int),
{
    let hl: usize = h.len();
    let mut k: usize = 0;
    while k < n.len()
        invariant
            k <= n@.len(),
            hl == h@.len(),
            i + n@.len() <= h@.len(),
            forall|m: int| 0 <= m < k ==> h@[i + m] == n@[m],
        decreases n@.len() - k,
    {
        if h[i + k] != n[k] {
            proof {
                assert(h@.subrange(i as int, i + n@.len())[k as int] == h@[i + k]);
            }
            return false;
        }
        k = k + 1;
    }
    proof {
        assert(h@.subrange(i as int, i + n@.len()) =~= n@);
    }
    true
}

/// The first position where the pattern occurs, if any.
fn find_first_sub(h: &[char], pat: &str) -> (r: Option<usize>)
    ensures
        match r {
            Some(i) => first_sub_from(h@, pat@, 0) == Some(i as int),
            None => first_sub_from(h@, pat@, 0) is None,
        },
{
    let n = chars_of(pat);
    let hl: usize = h.len();
    let nl: usize = n.len();
    if nl > hl {
        proof {
            lemma_first_sub_none(h@, pat@, 0);
        }
        return None;
    }
    if nl == 0 {
        proof {
            assert(h@.subrange(0, 0) =~= pat@);
            assert(sub_at(h@, pat@, 0));
        }
        return Some(0);
    }
    let mut i: usize = 0;
    let mut found: Option<usize> = None;
    while i <= hl - nl && found.is_none()
        invariant
            n@ == pat@,
            hl == h@.len(),
            nl == n@.len(),
            1 <= nl <= hl,
            i <= hl - nl + 1,
            match found {
                Some(x) => first_sub_from(h@, pat@, 0) == Some(x as int),
                None => first_sub_from(h@, pat@, 0) == first_sub_from(h@, pat@, i as int),
            },
        decreases hl - i + 1, (if found is Some { 0int } else { 1int }),
    {
        if match_at(h, &n, i) {
            found = Some(i);
        } else {
            i = i + 1;
        }
    }
    proof {
        if found is None {
            assert(i + nl > hl);
            assert(first_sub_from(h@, pat@, i as int) is None);
        }
    }
    found
}

/// Past the end no occurrence starts.
proof fn lemma_first_sub_none(h: Seq<char>, n: Seq<char>, i: int)
    requires
        i + n.len() > h.len(),
        0 <= i,
    ensures
        first_sub_from(h, n, i) is None,
{
}

/// Whether the pattern occurs anywhere in the text.
fn contains_sub_exec(h: &[char], pat: &str) -> (r: bool)
    ensures
        r == contains_sub(h@, pat@),
{
    match find_first_sub(h, pat) {
        Some(i) => {
            proof {
                lemma_first_sub_some(h@, pat@, 0);
            }
            true
        }
        None => {
            proof {
                lemma_first_sub_complete(h@, pat@, 0);
            }
            false
        }
    }
}

/// A found first occurrence is an occurrence.
proof fn lemma_first_sub_some(h: Seq<char>, n: Seq<char>, i: int)
    ensures
        first_sub_from(h, n, i) matches Some(x) ==> sub_at(h, n, x),
    decreases h.len() + 1 - i,
{
    if !(i < 0 || i + n.len() > h.len()) && !sub_at(h, n, i) {
        lemma_first_sub_some(h, n, i + 1);
    }
}

/// When the scan finds nothing, nothing is there.
proof fn lemma_first_sub_complete(h: Seq<char>, n: Seq<char>, i: int)
    requires
        0 <= i,
        first_sub_from(h, n, i) is None,
    ensures
        forall|x: int| i <= x ==> !sub_at(h, n, x),
    decreases h.len() + 1 - i,
{
    if !(i + n.len() > h.len()) {
        lemma_first_sub_complete(h, n, i + 1);
    }
}

/// Whether a Lua runtime message marks a user-raised error.
pub open spec fn is_user_error_msg(m: Seq<char>) -> bool {
    contains_sub(m, "error: "@)
}

/// The user-facing part of a Lua error message: the text before any stack
/// traceback, trimmed, with one `error: ` prefix removed.
pub open spec fn extract_msg(m: Seq<char>) -> Seq<char> {
    let pre = match first_sub_from(m, "stack traceback:"@, 0) {
        Some(i) => m.take(i),
        None => m,
    };
    let t = trim_seq(pre);
    if starts_with(t, "error: "@) {
        trim_seq(t.skip(7))
    } else {
        t
    }
}

/// Extract the user-facing part of a Lua error message.
pub fn extract_error_message(m: &str) -> (r: String)
    ensures
        r@ == extract_msg(m@),
{
    let cs = chars_of(m);
    let pre: Vec<char> = match find_first_sub(cs.as_slice(), "stack traceback:") {
        Some(i) => {
            proof {
                lemma_first_sub_in_range(cs@, "stack traceback:"@, 0);
            }
            crate::wire::copy_range(cs.as_slice(), 0, i)
        }
        None => cs,
    };
    proof {
        assert(pre@ == (match first_sub_from(m@, "stack traceback:"@, 0) {
            Some(i) => m@.take(i),
            None => m@,
        }));
    }
    let t = crate::text::trim_chars(pre.as_slice());
    if crate::session::starts_with_exec(t.as_slice(), "error: ") {
        proof {
            reveal_strlit("error: ");
        }
        let rest = crate::wire::copy_range(t.as_slice(), 7, t.len());
        proof {
            assert(rest@ =~= t@.skip(7));
        }
        let t2 = crate::text::trim_chars(rest.as_slice());
        string_of(t2.as_slice())
    } else {
        string_of(t.as_slice())
    }
}

/// A first occurrence lies in range.
proof fn lemma_first_sub_in_range(h: Seq<char>, n: Seq<char>, i: int)
    ensures
        first_sub_from(h, n, i) matches Some(x) ==> i <= x && x + n.len() <= h.len(),
    decreases h.len() + 1 - i,
{
    if !(i < 0 || i + n.len() > h.len()) && !sub_at(h, n, i) {
        lemma_first_sub_in_range(h, n, i + 1);
    }
}

/// Whether a failed two-argument call should be retried with one argument.
pub open spec fn is_arity_msg(m: Seq<char>) -> bool {
    contains_sub(m, "wrong number of arguments"@) || contains_sub(m, "attempt to call"@)
}

/// Whether a failed two-argument call should be retried with one argument.
pub fn arity_retry(m: &str) -> (r: bool)
    ensures
        r == is_arity_msg(m@),
{
    let cs = chars_of(m);
    contains_sub_exec(cs.as_slice(), "wrong number of arguments") || contains_sub_exec(
        cs.as_slice(),
        "attempt to call",
    )
}

/// What a hook outcome means for the pipeline.
pub enum HookStep {
    /// A user-raised error: fail with this status and message.
    Fail(ResponseCode, String),
    /// The hook returned this value.
    Replace(JsonValue),
    /// A system failure or an uncarryable result: keep going unchanged.
    Keep,
}

/// Classify a pre- or post-process outcome: a returned value replaces, a
/// user-raised error fails with the given status and the extracted
/// message, anything else is a no-op.
pub fn classify_hook_outcome(outcome: LuaOutcome, fail_code: ResponseCode) -> (r: HookStep)
    ensures
        match outcome {
            LuaOutcome::Value(v) => r == HookStep::Replace(v),
            LuaOutcome::Unserializable => r == HookStep::Keep,
            LuaOutcome::RuntimeError(m) => if is_user_error_msg(m@) {
                r matches HookStep::Fail(c, s) && c == fail_code && s@ == extract_msg(m@)
            } else {
                r == HookStep::Keep
            },
            LuaOutcome::OtherError(_) => r == HookStep::Keep,
        },
{
    match outcome {
        LuaOutcome::Value(v) => HookStep::Replace(v),
        LuaOutcome::Unserializable => HookStep::Keep,
        LuaOutcome::RuntimeError(m) => {
            let cs = chars_of(m.as_str());
            if contains_sub_exec(cs.as_slice(), "error: ") {
                HookStep::Fail(fail_code, extract_error_message(m.as_str()))
            } else {
                HookStep::Keep
            }
        }
        LuaOutcome::OtherError(_) => HookStep::Keep,
    }
}

/// Act on a pre-process outcome: a user-raised error is terminal — the
/// response comes back and the server function is never invoked — a
/// returned object is merged into the input, and any other outcome leaves
/// the input unchanged.
pub fn apply_pre_outcome(
    input: &mut Vec<(String, JsonValue)>,
    outcome: LuaOutcome,
) -> (r: Option<PicoResponse>)
    ensures
        match outcome {
            LuaOutcome::Value(v) => r is None && view_obj(final(input)@) == (match v@ {
                JsonVal::Obj(ms) => fold_obj_members(view_obj(old(input)@), ms),
                _ => view_obj(old(input)@),
            }),
            LuaOutcome::RuntimeError(m) => if is_user_error_msg(m@) {
                r matches Some(resp) && is_error_response(
                    resp,
                    ResponseCode::BadRequest,
                    extract_msg(m@),
                ) && final(input)@ == old(input)@
            } else {
                r is None && final(input)@ == old(input)@
            },
            _ => r is None && final(input)@ == old(input)@,
        },
{
    match classify_hook_outcome(outcome, ResponseCode::BadRequest) {
        HookStep::Fail(code, msg) => Some(PicoResponse::error(code, msg.as_str())),
        HookStep::Replace(v) => {
            merge_replacement(input, v);
            None
        }
        HookStep::Keep => None,
    }
}

/// Call a hook with input and claims, retrying with the input alone when
/// the failure looks like an arity mismatch.
fn call_hook_with_fallback(
    lua: &mlua::Lua,
    f: &mlua::Function,
    arg: &JsonValue,
    claims: Option<&JsonValue>,
) -> LuaOutcome {
    let first = lua_call_2(lua, f, arg, claims);
    match first {
        LuaOutcome::RuntimeError(m) => {
            if arity_retry(m.as_str()) {
                lua_call_1(lua, f, arg)
            } else {
                LuaOutcome::RuntimeError(m)
            }
        }
        LuaOutcome::OtherError(m) => {
            if arity_retry(m.as_str()) {
                lua_call_1(lua, f, arg)
            } else {
                LuaOutcome::OtherError(m)
            }
        }
        other => other,
    }
}


// ------------------------------------------------------------------
// The service: routes, catalog, secret
// ------------------------------------------------------------------

/// A catalog entry: the parameterized statement and the parameter names,
/// in the order the statement takes them.
pub struct Sproc {
    pub sql: String,
    pub parameters: Vec<String>,
}

/// The service: the route table, the prefix tree over it, the function
/// catalog and the session secret. Connections, scripting state and the
/// renderer live with the caller.
pub struct PicoService {
    pub secret_key: String,
    pub routes: Vec<(String, Route)>,
    pub route_tree: RouteTree,
    pub functions: Vec<(String, Sproc)>,
}

/// The route table as a mathematical map: key text to definitions.
pub open spec fn routes_model(rs: Seq<(String, Route)>) -> Seq<
    (Seq<char>, Seq<(Method, RouteHandler)>),
> {
    Seq::new(rs.len(), |i: int| (rs[i].0@, rs[i].1.definitions@))
}

/// The definitions under the first route with this key, if any.
pub open spec fn route_lookup(
    rm: Seq<(Seq<char>, Seq<(Method, RouteHandler)>)>,
    k: Seq<char>,
) -> Option<Seq<(Method, RouteHandler)>>
    decreases rm.len(),
{
    if rm.len() == 0 {
        None
    } else if rm[0].0 == k {
        Some(rm[0].1)
    } else {
        route_lookup(rm.drop_first(), k)
    }
}

/// The catalog as a mathematical map: function name to parameter names.
pub open spec fn catalog_model(fs: Seq<(String, Sproc)>) -> Seq<(Seq<char>, Seq<Seq<char>>)> {
    Seq::new(fs.len(), |i: int| (fs[i].0@, fs[i].1.parameters.deep_view()))
}

/// The parameters of the first catalog entry with this name, if any.
pub open spec fn catalog_lookup(
    cm: Seq<(Seq<char>, Seq<Seq<char>>)>,
    k: Seq<char>,
) -> Option<Seq<Seq<char>>>
    decreases cm.len(),
{
    if cm.len() == 0 {
        None
    } else if cm[0].0 == k {
        Some(cm[0].1)
    } else {
        catalog_lookup(cm.drop_first(), k)
    }
}

/// A name at first index `i` fixes the route lookup.
proof fn lemma_route_lookup_index(
    rm: Seq<(Seq<char>, Seq<(Method, RouteHandler)>)>,
    k: Seq<char>,
    i: int,
)
    requires
        0 <= i < rm.len(),
        forall|j: int| 0 <= j < i ==> rm[j].0 != k,
        rm[i].0 == k,
    ensures
        route_lookup(rm, k) == Some(rm[i].1),
    decreases i,
{
    if i > 0 {
        assert forall|j: int| 0 <= j < i - 1 implies rm.drop_first()[j].0 != k by {
            assert(rm.drop_first()[j] == rm[j + 1]);
        }
        assert(rm.drop_first()[i - 1] == rm[i]);
        lemma_route_lookup_index(rm.drop_first(), k, i - 1);
        assert(rm[0].0 != k);
    }
}

/// No entry so named means no route.
proof fn lemma_route_lookup_none(rm: Seq<(Seq<char>, Seq<(Method, RouteHandler)>)>, k: Seq<char>)
    requires
        forall|j: int| 0 <= j < rm.len() ==> rm[j].0 != k,
    ensures
        route_lookup(rm, k) is None,
    decreases rm.len(),
{
    if rm.len() != 0 {
        assert forall|j: int| 0 <= j < rm.drop_first().len() implies rm.drop_first()[j].0
            != k by {
            assert(rm.drop_first()[j] == rm[j + 1]);
        }
        lemma_route_lookup_none(rm.drop_first(), k);
        assert(rm[0].0 != k);
    }
}

/// A name at first index `i` fixes the catalog lookup.
proof fn lemma_catalog_lookup_index(cm: Seq<(Seq<char>, Seq<Seq<char>>)>, k: Seq<char>, i: int)
    requires
        0 <= i < cm.len(),
        forall|j: int| 0 <= j < i ==> cm[j].0 != k,
        cm[i].0 == k,
    ensures
        catalog_lookup(cm, k) == Some(cm[i].1),
    decreases i,
{
    if i > 0 {
        assert forall|j: int| 0 <= j < i - 1 implies cm.drop_first()[j].0 != k by {
            assert(cm.drop_first()[j] == cm[j + 1]);
        }
        assert(cm.drop_first()[i - 1] == cm[i]);
        lemma_catalog_lookup_index(cm.drop_first(), k, i - 1);
        assert(cm[0].0 != k);
    }
}

/// No entry so named means no function.
proof fn lemma_catalog_lookup_none(cm: Seq<(Seq<char>, Seq<Seq<char>>)>, k: Seq<char>)
    requires
        forall|j: int| 0 <= j < cm.len() ==> cm[j].0 != k,
    ensures
        catalog_lookup(cm, k) is None,
    decreases cm.len(),
{
    if cm.len() != 0 {
        assert forall|j: int| 0 <= j < cm.drop_first().len() implies cm.drop_first()[j].0
            != k by {
            assert(cm.drop_first()[j] == cm[j + 1]);
        }
        lemma_catalog_lookup_none(cm.drop_first(), k);
        assert(cm[0].0 != k);
    }
}

/// A function file name without its `.sql` suffix.
pub open spec fn strip_sql(s: Seq<char>) -> Seq<char> {
    if s.len() >= 4 && s.subrange(s.len() - 4, s.len() as int) == ".sql"@ {
        s.take(s.len() - 4)
    } else {
        s
    }
}

/// Strip a `.sql` suffix from a function file name.
pub fn strip_sql_suffix(s: &str) -> (r: String)
    ensures
        r@ == strip_sql(s@),
{
    let cs = chars_of(s);
    let n: usize = cs.len();
    let has = if n >= 4 {
        let tail = crate::wire::copy_range(cs.as_slice(), n - 4, n);
        crate::text::chars_eq_str(tail.as_slice(), ".sql")
    } else {
        false
    };
    if has {
        let head = crate::wire::copy_range(cs.as_slice(), 0, n - 4);
        proof {
            assert(head@ =~= strip_sql(s@));
        }
        string_of(head.as_slice())
    } else {
        proof {
            if s@.len() >= 4 {
                assert(s@.subrange(s@.len() - 4, s@.len() as int) != ".sql"@);
            }
        }
        string_of(cs.as_slice())
    }
}

impl PicoService {
    /// An empty service with this session secret.
    pub fn new(secret_key: String) -> (r: Self)
        ensures
            r.route_tree.wf(),
            r.routes@.len() == 0,
            r.functions@.len() == 0,
            r.secret_key == secret_key,
    {
        PicoService {
            secret_key,
            routes: Vec::new(),
            route_tree: RouteTree::new(),
            functions: Vec::new(),
        }
    }

    /// Register one handler: insert the path's chain into the tree, and
    /// file the handler under the canonical route key and the method.
    pub fn register(&mut self, path: &str, method: Method, handler: RouteHandler) -> (key: String)
        requires
            old(self).route_tree.wf(),
        ensures
            final(self).route_tree.wf(),
            crate::route::tree_extends(final(self).route_tree.nodes@, old(self).route_tree.nodes@),
            exists|names: Seq<Seq<char>>|
                crate::route::contains_from(
                    final(self).route_tree.nodes@,
                    0,
                    crate::route::keys_of(segments_of(path@)),
                    names,
                ) && key@ == join_slash(names),
            route_lookup(routes_model(final(self).routes@), key@) matches Some(defs)
                && defs.len() >= 1 && defs.last() == (method, handler),
            final(self).secret_key == old(self).secret_key,
            final(self).functions == old(self).functions,
    {
        let key = self.route_tree.insert_path(path);
        let mut i: usize = 0;
        let n: usize = self.routes.len();
        let mut at: Option<usize> = None;
        while i < n
            invariant
                i <= n,
                n == self.routes@.len(),
                match at {
                    Some(x) => x < i && self.routes@[x as int].0@ == key@ && forall|j: int|
                        0 <= j < x ==> self.routes@[j].0@ != key@,
                    None => forall|j: int| 0 <= j < i ==> self.routes@[j].0@ != key@,
                },
            decreases n - i + (if at is None { 1int } else { 0int }),
        {
            if at.is_none() {
                if crate::text::str_eq(self.routes[i].0.as_str(), key.as_str()) {
                    at = Some(i);
                }
            }
            i = i + 1;
        }
        match at {
            Some(x) => {
                let ghost before = routes_model(self.routes@);
                self.routes[x].1.definitions.push((method, handler));
                proof {
                    let rm = routes_model(self.routes@);
                    assert(rm[x as int].0 == key@);
                    assert(rm[x as int].1.last() == (method, handler));
                    assert forall|j: int| 0 <= j < x implies rm[j].0 != key@ by {
                        assert(rm[j].0 == before[j].0);
                    }
                    lemma_route_lookup_index(rm, key@, x as int);
                }
            }
            None => {
                let mut defs: Vec<(Method, RouteHandler)> = Vec::new();
                defs.push((method, handler));
                let key2 = crate::text::string_of(chars_of(key.as_str()).as_slice());
                self.routes.push((key2, Route { definitions: defs }));
                proof {
                    let rm = routes_model(self.routes@);
                    assert(rm[rm.len() - 1].0 == key@);
                    assert(rm[rm.len() - 1].1.last() == (method, handler));
                    assert forall|j: int| 0 <= j < rm.len() - 1 implies rm[j].0 != key@ by {
                        assert(rm[j].0 == self.routes@[j].0@);
                    }
                    lemma_route_lookup_index(rm, key@, rm.len() - 1);
                }
            }
        }
        key
    }

    /// File one catalog entry under its name.
    pub fn add_function(&mut self, name: String, entry: Sproc)
        ensures
            final(self).functions@ == old(self).functions@.push((name, entry)),
            final(self).routes == old(self).routes,
            final(self).route_tree == old(self).route_tree,
            final(self).secret_key == old(self).secret_key,
    {
        self.functions.push((name, entry));
    }
}

// ------------------------------------------------------------------
// Content negotiation
// ------------------------------------------------------------------

/// Whether the client asked for HTML: the first `accept` value is
/// `text/html`, or the first `hx-request` value is `true`.
pub open spec fn wants_html(hs: Seq<(Seq<char>, Seq<Seq<char>>)>) -> bool {
    ||| (match hdr_lookup(hs, "accept"@) {
        Some(vs) => vs.len() > 0 && vs[0] == "text/html"@,
        None => false,
    })
    ||| (match hdr_lookup(hs, "hx-request"@) {
        Some(vs) => vs.len() > 0 && vs[0] == "true"@,
        None => false,
    })
}

/// Whether the client asked for HTML.
pub fn negotiate_html(headers: &Vec<(String, Vec<String>)>) -> (r: bool)
    ensures
        r == wants_html(headers.deep_view()),
{
    let accept_html = match crate::wire::hdr_get(headers, "accept") {
        Some(vs) => {
            if vs.len() > 0 {
                proof {
                    assert(vs.deep_view()[0] == vs@[0]@);
                }
                crate::text::str_eq(vs[0].as_str(), "text/html")
            } else {
                false
            }
        }
        None => false,
    };
    let fragment = match crate::wire::hdr_get(headers, "hx-request") {
        Some(vs) => {
            if vs.len() > 0 {
                proof {
                    assert(vs.deep_view()[0] == vs@[0]@);
                }
                crate::text::str_eq(vs[0].as_str(), "true")
            } else {
                false
            }
        }
        None => false,
    };
    accept_html || fragment
}

// ------------------------------------------------------------------
// The pipeline itself
// ------------------------------------------------------------------

/// What remains after the pipeline's first half: the handler, the request
/// headers, the claims in flight, and the catalog call to make, if any.
pub struct PendingRequest<'a> {
    pub handler: &'a RouteHandler,
    pub headers: Vec<(String, Vec<String>)>,
    pub claims: Option<JsonValue>,
    pub call: Option<(String, Vec<(String, JsonValue)>)>,
}

/// Where a request stands after the pipeline's first half.
pub enum Dispatch<'a> {
    /// No route chain matched: the caller may fall back to a static file.
    NoRoute,
    /// The pipeline ended with this response.
    Done(PicoResponse),
    /// A handler was selected; invoke the call, then complete.
    Pending(PendingRequest<'a>),
}

/// An error response with this status and message.
pub open spec fn is_error_response(resp: PicoResponse, code: ResponseCode, msg: Seq<char>) -> bool {
    &&& resp.status == code
    &&& resp.body@ == vstd::utf8::encode_utf8(json_text(error_document(code, msg)))
}

/// The first half of the pipeline: resolve the route, select the handler,
/// read the session, assemble and validate the input, and run the
/// pre-process hook. What each scripted outcome decides is stated by
/// `classify_hook_outcome`; the clauses here cover every step the scripts
/// do not touch.
pub fn handle_request<'a>(
    service: &'a PicoService,
    lua: &mlua::Lua,
    request: PicoRequest,
) -> (r: Dispatch<'a>)
    requires
        service.route_tree.wf(),
    ensures
        ({
            let res = crate::route::resolve_from(
                service.route_tree.nodes@,
                0,
                segments_of(request.path@),
            );
            match res {
                None => r is NoRoute,
                Some(q) => match route_lookup(routes_model(service.routes@), join_slash(q.0)) {
                    None => r matches Dispatch::Done(resp) && is_error_response(
                        resp,
                        ResponseCode::NotFound,
                        "Route not found"@,
                    ),
                    Some(defs) => match defs_lookup(defs, request.method) {
                        None => r matches Dispatch::Done(resp) && is_error_response(
                            resp,
                            ResponseCode::NotFound,
                            "Method not allowed for this route"@,
                        ),
                        Some(h) => match h.sql_function_name {
                            None => r matches Dispatch::Pending(p) && p.call is None,
                            Some(fname) => match catalog_lookup(
                                catalog_model(service.functions@),
                                strip_sql(fname@),
                            ) {
                                None => r matches Dispatch::Done(resp) && is_error_response(
                                    resp,
                                    ResponseCode::InternalError,
                                    "SQL function not found"@,
                                ),
                                Some(params) => if h.pre_process is None {
                                    match first_missing(
                                        params,
                                        merged_input(request.body@, q.1),
                                    ) {
                                        Some(missing) => r matches Dispatch::Done(resp)
                                            && is_error_response(
                                            resp,
                                            ResponseCode::BadRequest,
                                            "Missing required parameter: "@ + missing,
                                        ),
                                        None => r matches Dispatch::Pending(p) && (
                                        p.call matches Some(c) && c.0@ == strip_sql(fname@)
                                            && view_obj(c.1@) == merged_input(
                                            request.body@,
                                            q.1,
                                        )),
                                    }
                                } else {
                                    r is Done || (r matches Dispatch::Pending(p) && (
                                    p.call matches Some(c) && c.0@ == strip_sql(fname@)))
                                },
                            },
                        },
                    },
                },
            }
        }),
{
    let resolved = service.route_tree.resolve(request.path.as_str());
    let (key, binds) = match resolved {
        Some(p) => p,
        None => {
            return Dispatch::NoRoute;
        }
    };
    let route = match find_route(&service.routes, key.as_str()) {
        Some(rt) => rt,
        None => {
            return Dispatch::Done(PicoResponse::error(ResponseCode::NotFound, "Route not found"));
        }
    };
    let handler = match route.handler_for(request.method) {
        Some(h) => h,
        None => {
            return Dispatch::Done(
                PicoResponse::error(ResponseCode::NotFound, "Method not allowed for this route"),
            );
        }
    };
    let claims: Option<JsonValue> = match crate::wire::hdr_get(&request.headers, "cookie") {
        Some(vs) => decode_session(vs, service.secret_key.as_str()),
        None => None,
    };
    match &handler.sql_function_name {
        Some(fname) => {
            let name = strip_sql_suffix(fname.as_str());
            let function = match find_function(&service.functions, name.as_str()) {
                Some(f) => f,
                None => {
                    return Dispatch::Done(
                        PicoResponse::error(ResponseCode::InternalError, "SQL function not found"),
                    );
                }
            };
            let mut input = assemble_input(request.body, binds);
            match &handler.pre_process {
                Some(pre) => {
                    let arg = JsonValue::Object(clone_members(&input));
                    let outcome = call_hook_with_fallback(lua, pre, &arg, claims.as_ref());
                    match apply_pre_outcome(&mut input, outcome) {
                        Some(resp) => {
                            return Dispatch::Done(resp);
                        }
                        None => {}
                    }
                }
                None => {}
            }
            match find_missing_param(&function.parameters, &input) {
                Some(i) => {
                    let mut msg: Vec<char> = Vec::new();
                    push_str(&mut msg, "Missing required parameter: ");
                    push_str(&mut msg, function.parameters[i].as_str());
                    let msg_s = string_of(msg.as_slice());
                    proof {
                        assert(msg_s@ =~= "Missing required parameter: "@
                            + function.parameters@[i as int]@);
                    }
                    Dispatch::Done(PicoResponse::error(ResponseCode::BadRequest, msg_s.as_str()))
                }
                None => Dispatch::Pending(
                    PendingRequest {
                        handler,
                        headers: request.headers,
                        claims,
                        call: Some((name, input)),
                    },
                ),
            }
        }
        None => Dispatch::Pending(
            PendingRequest { handler, headers: request.headers, claims, call: None },
        ),
    }
}

/// Copy the members of an input object.
fn clone_members(o: &Vec<(String, JsonValue)>) -> (r: Vec<(String, JsonValue)>)
    ensures
        view_obj(r@) == view_obj(o@),
{
    let mut out: Vec<(String, JsonValue)> = Vec::new();
    clone_obj_into(o, 0, &mut out);
    proof {
        assert(view_obj(o@).skip(0) =~= view_obj(o@));
        assert(view_obj(out@) =~= view_obj(o@));
    }
    out
}

/// The first route with this key.
fn find_route<'a>(routes: &'a Vec<(String, Route)>, k: &str) -> (r: Option<&'a Route>)
    ensures
        match r {
            Some(rt) => route_lookup(routes_model(routes@), k@) == Some(rt.definitions@),
            None => route_lookup(routes_model(routes@), k@) is None,
        },
{
    let mut i: usize = 0;
    while i < routes.len()
        invariant
            i <= routes@.len(),
            forall|j: int| 0 <= j < i ==> routes@[j].0@ != k@,
        decreases routes@.len() - i,
    {
        if crate::text::str_eq(routes[i].0.as_str(), k) {
            proof {
                lemma_route_lookup_index(routes_model(routes@), k@, i as int);
            }
            return Some(&routes[i].1);
        }
        i = i + 1;
    }
    proof {
        lemma_route_lookup_none(routes_model(routes@), k@);
    }
    None
}

/// The first catalog entry with this name.
fn find_function<'a>(functions: &'a Vec<(String, Sproc)>, k: &str) -> (r: Option<&'a Sproc>)
    ensures
        match r {
            Some(f) => catalog_lookup(catalog_model(functions@), k@) == Some(
                f.parameters.deep_view(),
            ),
            None => catalog_lookup(catalog_model(functions@), k@) is None,
        },
{
    let mut i: usize = 0;
    while i < functions.len()
        invariant
            i <= functions@.len(),
            forall|j: int| 0 <= j < i ==> functions@[j].0@ != k@,
        decreases functions@.len() - i,
    {
        if crate::text::str_eq(functions[i].0.as_str(), k) {
            proof {
                lemma_catalog_lookup_index(catalog_model(functions@), k@, i as int);
            }
            return Some(&functions[i].1);
        }
        i = i + 1;
    }
    proof {
        lemma_catalog_lookup_none(catalog_model(functions@), k@);
    }
    None
}

// ------------------------------------------------------------------
// Completion: session issuance, post-processing, negotiation, finalizing
// ------------------------------------------------------------------

/// How a request ends: a finished response, or a page to render.
pub enum Completion<'a> {
    /// The response is ready.
    Finished(PicoResponse),
    /// Render this view over this payload, then frame the markup with
    /// `finish_html_response`.
    RenderView { view: &'a crate::html::View, payload: JsonValue, set_cookie: Option<String> },
}

/// The response headers after finalizing: any session cookie, then the
/// content type, then the content length.
pub open spec fn final_headers(
    set_cookie: Option<Seq<char>>,
    content_type: Seq<char>,
    body_len: nat,
) -> Seq<(Seq<char>, Seq<Seq<char>>)> {
    let base: Seq<(Seq<char>, Seq<Seq<char>>)> = match set_cookie {
        Some(c) => seq![("Set-Cookie"@, seq![c])],
        None => Seq::empty(),
    };
    base + seq![
        ("Content-Type"@, seq![content_type]),
        ("Content-Length"@, seq![crate::text::dec_digits(body_len)]),
    ]
}

/// A finished JSON response: status 200, the payload's compact text as the
/// body, and the final headers.
pub open spec fn is_json_response(
    resp: PicoResponse,
    payload: JsonVal,
    set_cookie: Option<Seq<char>>,
) -> bool {
    &&& resp.status == ResponseCode::Okay
    &&& resp.body@ == vstd::utf8::encode_utf8(json_text(payload))
    &&& resp.headers.deep_view() == final_headers(
        set_cookie,
        "application/json"@,
        resp.body@.len(),
    )
}

/// Attach the final headers and body.
fn finalize_json(payload: &JsonValue, set_cookie: Option<String>) -> (r: PicoResponse)
    ensures
        is_json_response(r, payload@, match set_cookie {
            Some(c) => Some(c@),
            None => None,
        }),
{
    let text = crate::json::json_to_string(payload);
    let body = text.as_str().as_bytes_vec();
    let mut headers: Vec<(String, Vec<String>)> = Vec::new();
    let ghost sc = match &set_cookie {
        Some(c) => Some(c@),
        None => None::<Seq<char>>,
    };
    match set_cookie {
        Some(c) => {
            let mut vs: Vec<String> = Vec::new();
            vs.push(c);
            headers.push((String::from_str("Set-Cookie"), vs));
        }
        None => {}
    }
    let mut ct: Vec<String> = Vec::new();
    ct.push(String::from_str("application/json"));
    headers.push((String::from_str("Content-Type"), ct));
    let mut cl: Vec<char> = Vec::new();
    crate::text::push_dec(&mut cl, body.len());
    let mut clv: Vec<String> = Vec::new();
    clv.push(string_of(cl.as_slice()));
    headers.push((String::from_str("Content-Length"), clv));
    proof {
        assert(headers.deep_view() =~~= final_headers(sc, "application/json"@, body@.len()));
    }
    PicoResponse { status: ResponseCode::Okay, body, headers }
}

/// Frame rendered markup as the response: status 200, the markup as the
/// body, and the final headers with an HTML content type.
pub fn finish_html_response(markup: &str, set_cookie: Option<String>) -> (r: PicoResponse)
    ensures
        r.status == ResponseCode::Okay,
        r.body@ == vstd::utf8::encode_utf8(markup@),
        r.headers.deep_view() == final_headers(
            match set_cookie {
                Some(c) => Some(c@),
                None => None,
            },
            "text/html"@,
            r.body@.len(),
        ),
{
    let body = markup.as_bytes_vec();
    let mut headers: Vec<(String, Vec<String>)> = Vec::new();
    let ghost sc = match &set_cookie {
        Some(c) => Some(c@),
        None => None::<Seq<char>>,
    };
    match set_cookie {
        Some(c) => {
            let mut vs: Vec<String> = Vec::new();
            vs.push(c);
            headers.push((String::from_str("Set-Cookie"), vs));
        }
        None => {}
    }
    let mut ct: Vec<String> = Vec::new();
    ct.push(String::from_str("text/html"));
    headers.push((String::from_str("Content-Type"), ct));
    let mut cl: Vec<char> = Vec::new();
    crate::text::push_dec(&mut cl, body.len());
    let mut clv: Vec<String> = Vec::new();
    clv.push(string_of(cl.as_slice()));
    headers.push((String::from_str("Content-Length"), clv));
    proof {
        assert(headers.deep_view() =~~= final_headers(sc, "text/html"@, body@.len()));
    }
    PicoResponse { status: ResponseCode::Okay, body, headers }
}

/// The second half of the pipeline: surface an invocation failure, run the
/// session and post-process hooks, negotiate the content type, and
/// finalize. When neither hook is present the response is pinned exactly:
/// an invocation error becomes its error response; otherwise, with HTML
/// asked for and a view at hand the payload goes to the renderer, and in
/// every other case — HTML asked for without a view included — the payload
/// is serialized as JSON.
pub fn complete<'a>(
    service: &PicoService,
    lua: &mlua::Lua,
    pending: PendingRequest<'a>,
    outcome: Result<JsonValue, ResponseCode>,
) -> (r: Completion<'a>)
    ensures
        (match outcome {
            Err(rc) => r matches Completion::Finished(resp) && is_error_response(
                resp,
                rc,
                "SQL execution failed: "@ + rc.reason_phrase(),
            ),
            Ok(payload) => pending.handler.set_jwt is None && pending.handler.post_process
                is None ==> {
                if wants_html(pending.headers.deep_view()) && pending.handler.view is Some {
                    r matches Completion::RenderView { view, payload: p, set_cookie } && p@
                        == payload@ && set_cookie is None
                } else {
                    r matches Completion::Finished(resp) && is_json_response(
                        resp,
                        payload@,
                        None,
                    )
                }
            },
        }),
{
    let mut payload = match outcome {
        Ok(v) => v,
        Err(rc) => {
            let mut msg: Vec<char> = Vec::new();
            push_str(&mut msg, "SQL execution failed: ");
            push_str(&mut msg, rc.to_str());
            let msg_s = string_of(msg.as_slice());
            proof {
                assert(msg_s@ =~= "SQL execution failed: "@ + rc.reason_phrase());
            }
            return Completion::Finished(PicoResponse::error(rc, msg_s.as_str()));
        }
    };
    let mut claims = pending.claims;
    let mut set_cookie: Option<String> = None;
    match &pending.handler.set_jwt {
        Some(hook) => {
            let arg = if payload.is_null() {
                JsonValue::Object(Vec::new())
            } else {
                clone_json(&payload)
            };
            match lua_call_1(lua, hook, &arg) {
                LuaOutcome::Value(new_claims) => {
                    match encode_session(&new_claims, service.secret_key.as_str()) {
                        Some(cookie) => {
                            set_cookie = Some(cookie);
                            claims = Some(new_claims);
                        }
                        None => {}
                    }
                }
                LuaOutcome::Unserializable => {
                    return Completion::Finished(
                        PicoResponse::error(
                            ResponseCode::InternalError,
                            "JWT claims conversion failed",
                        ),
                    );
                }
                LuaOutcome::RuntimeError(m) => {
                    let cs = chars_of(m.as_str());
                    if contains_sub_exec(cs.as_slice(), "error: ") {
                        let msg = extract_error_message(m.as_str());
                        return Completion::Finished(
                            PicoResponse::error(ResponseCode::Unauthorized, msg.as_str()),
                        );
                    }
                }
                LuaOutcome::OtherError(_) => {}
            }
        }
        None => {}
    }
    match &pending.handler.post_process {
        Some(hook) => {
            let arg = if payload.is_null() {
                JsonValue::Object(Vec::new())
            } else {
                clone_json(&payload)
            };
            let outcome2 = call_hook_with_fallback(lua, hook, &arg, claims.as_ref());
            match classify_hook_outcome(outcome2, ResponseCode::BadRequest) {
                HookStep::Fail(code, msg) => {
                    return Completion::Finished(PicoResponse::error(code, msg.as_str()));
                }
                HookStep::Replace(v) => {
                    payload = v;
                }
                HookStep::Keep => {}
            }
        }
        None => {}
    }
    if negotiate_html(&pending.headers) {
        match &pending.handler.view {
            Some(view) => {
                return Completion::RenderView { view, payload, set_cookie };
            }
            None => {}
        }
    }
    Completion::Finished(finalize_json(&payload, set_cookie))
}

} // verus!
