//! Routing: HTTP methods, route handlers, and the prefix tree that resolves
//! a request path to a canonical route key plus extracted path parameters.
//!
//! The tree is an arena: nodes live in one vector and refer to their
//! children by index, every child index strictly greater than its parent's.

use vstd::prelude::*;

use crate::text::{chars_eq, chars_eq_str, chars_of, lower_chars, lower_seq, string_of};

verus! {

broadcast use vstd::seq::group_seq_axioms;

/// An HTTP method a route handler can be bound to.
#[derive(Clone, Copy, Debug, PartialEq, Eq, Hash, Structural)]
pub enum Method {
    GET,
    POST,
    PUT,
    DELETE,
    WS,
    SSE,
}

/// The method a request verb names, after case folding; unknown verbs name
/// none.
pub open spec fn method_of_verb(s: Seq<char>) -> Option<Method> {
    let l = lower_seq(s);
    if l == "get"@ {
        Some(Method::GET)
    } else if l == "post"@ {
        Some(Method::POST)
    } else if l == "put"@ {
        Some(Method::PUT)
    } else if l == "delete"@ {
        Some(Method::DELETE)
    } else if l == "ws_upgrade?"@ {
        Some(Method::WS)
    } else if l == "sse"@ {
        Some(Method::SSE)
    } else {
        None
    }
}

impl Method {
    /// The canonical spelling of this method.
    pub open spec fn spec_name(self) -> Seq<char> {
        match self {
            Method::GET => "GET"@,
            Method::POST => "POST"@,
            Method::PUT => "PUT"@,
            Method::DELETE => "DELETE"@,
            Method::WS => "WS"@,
            Method::SSE => "SSE"@,
        }
    }

    /// The canonical spelling of this method.
    pub fn as_str(&self) -> (r: &str)
        ensures
            r@ == self.spec_name(),
    {
        match self {
            Method::GET => "GET",
            Method::POST => "POST",
            Method::PUT => "PUT",
            Method::DELETE => "DELETE",
            Method::WS => "WS",
            Method::SSE => "SSE",
        }
    }

    /// Parse a request verb, case-insensitively.
    pub fn from_str(s: &str) -> (r: Result<Method, ()>)
        ensures
            match r {
                Ok(m) => method_of_verb(s@) == Some(m),
                Err(_) => method_of_verb(s@) is None,
            },
    {
        let cs = chars_of(s);
        let l = lower_chars(cs.as_slice());
        if chars_eq_str(l.as_slice(), "get") {
            Ok(Method::GET)
        } else if chars_eq_str(l.as_slice(), "post") {
            Ok(Method::POST)
        } else if chars_eq_str(l.as_slice(), "put") {
            Ok(Method::PUT)
        } else if chars_eq_str(l.as_slice(), "delete") {
            Ok(Method::DELETE)
        } else if chars_eq_str(l.as_slice(), "ws_upgrade?") {
            Ok(Method::WS)
        } else if chars_eq_str(l.as_slice(), "sse") {
            Ok(Method::SSE)
        } else {
            Err(())
        }
    }
}

/// What one route does for one method: an optional view, an optional bound
/// server function, and up to three scripted hooks.
pub struct RouteHandler {
    pub view: Option<crate::html::View>,
    pub sql_function_name: Option<String>,
    pub set_jwt: Option<mlua::Function>,
    pub pre_process: Option<mlua::Function>,
    pub post_process: Option<mlua::Function>,
}

/// A route: its handlers, one per method.
pub struct Route {
    pub definitions: Vec<(Method, RouteHandler)>,
}

/// The handler under the first definition for `m`, if any.
pub open spec fn defs_lookup(ds: Seq<(Method, RouteHandler)>, m: Method) -> Option<RouteHandler>
    decreases ds.len(),
{
    if ds.len() == 0 {
        None
    } else if ds[0].0 == m {
        Some(ds[0].1)
    } else {
        defs_lookup(ds.drop_first(), m)
    }
}

impl Route {
    /// The handler bound to this method, if any.
    pub fn handler_for(&self, m: Method) -> (r: Option<&RouteHandler>)
        ensures
            match r {
                Some(h) => defs_lookup(self.definitions@, m) == Some(*h),
                None => defs_lookup(self.definitions@, m) is None,
            },
    {
        let ghost ds = self.definitions@;
        proof {
            assert(ds.subrange(0, ds.len() as int) =~= ds);
        }
        let mut i: usize = 0;
        while i < self.definitions.len()
            invariant
                i <= ds.len(),
                ds == self.definitions@,
                defs_lookup(ds, m) == defs_lookup(ds.subrange(i as int, ds.len() as int), m),
            decreases ds.len() - i,
        {
            let ghost tail = ds.subrange(i as int, ds.len() as int);
            proof {
                assert(tail[0] == ds[i as int]);
                assert(tail.drop_first() =~= ds.subrange(i + 1, ds.len() as int));
            }
            if self.definitions[i].0 == m {
                return Some(&self.definitions[i].1);
            }
            i = i + 1;
        }
        proof {
            assert(ds.subrange(i as int, ds.len() as int).len() == 0);
        }
        None
    }
}

// ------------------------------------------------------------------
// Path segmentation
// ------------------------------------------------------------------

/// The length of the leading run of non-slash characters.
pub open spec fn seg_len(s: Seq<char>) -> int
    decreases s.len(),
{
    if s.len() == 0 || s[0] == '/' {
        0
    } else {
        1 + seg_len(s.drop_first())
    }
}

pub proof fn lemma_seg_len_bounds(s: Seq<char>)
    ensures
        0 <= seg_len(s) <= s.len(),
        forall|i: int| 0 <= i < seg_len(s) ==> s[i] != '/',
        seg_len(s) < s.len() ==> s[seg_len(s)] == '/',
    decreases s.len(),
{
    if s.len() != 0 && s[0] != '/' {
        lemma_seg_len_bounds(s.drop_first());
        assert forall|i: int| 0 <= i < seg_len(s) implies s[i] != '/' by {
            if i > 0 {
                assert(s.drop_first()[i - 1] == s[i]);
            }
        }
        if seg_len(s) < s.len() {
            assert(s.drop_first()[seg_len(s) - 1] == s[seg_len(s)]);
        }
    }
}

/// The non-empty segments of a path: split on `/`, empties dropped.
pub open spec fn segments_of(s: Seq<char>) -> Seq<Seq<char>>
    decreases s.len(),
    via segments_of_dec
{
    if s.len() == 0 {
        Seq::empty()
    } else if s[0] == '/' {
        segments_of(s.drop_first())
    } else {
        seq![s.subrange(0, seg_len(s))] + segments_of(s.skip(seg_len(s)))
    }
}

#[via_fn]
proof fn segments_of_dec(s: Seq<char>) {
    if s.len() != 0 && s[0] != '/' {
        lemma_seg_len_bounds(s);
        assert(seg_len(s) >= 1);
    }
}

/// The views of a sequence of character vectors.
pub open spec fn views_of(s: Seq<Vec<char>>) -> Seq<Seq<char>> {
    Seq::new(s.len(), |i: int| s[i]@)
}

/// Split a path into its non-empty segments.
pub fn split_segments(v: &[char]) -> (r: Vec<Vec<char>>)
    ensures
        views_of(r@) == segments_of(v@),
{
    let mut out: Vec<Vec<char>> = Vec::new();
    split_segments_from(v, 0, &mut out);
    proof {
        assert(v@.skip(0) =~= v@);
        assert(views_of(out@) =~= segments_of(v@));
    }
    out
}

/// Append the segments of `v` from position `i` on.
fn split_segments_from(v: &[char], i: usize, out: &mut Vec<Vec<char>>)
    requires
        i <= v@.len(),
    ensures
        views_of(final(out)@) == views_of(old(out)@) + segments_of(v@.skip(i as int)),
    decreases v@.len() - i,
{
    let ghost rest = v@.skip(i as int);
    if i == v.len() {
        proof {
            assert(rest.len() == 0);
            assert(views_of(out@) =~= views_of(old(out)@) + segments_of(rest));
        }
    } else if v[i] == '/' {
        split_segments_from(v, i + 1, out);
        proof {
            assert(rest[0] == '/');
            assert(rest.drop_first() =~= v@.skip(i + 1));
            assert(views_of(out@) =~= views_of(old(out)@) + segments_of(rest));
        }
    } else {
        let mut j: usize = i;
        let mut cur: Vec<char> = Vec::new();
        while j < v.len() && v[j] != '/'
            invariant
                i <= j <= v@.len(),
                forall|m: int| i <= m < j ==> v@[m] != '/',
                cur@ == v@.subrange(i as int, j as int),
            decreases v@.len() - j,
        {
            cur.push(v[j]);
            j = j + 1;
            proof {
                assert(cur@ =~= v@.subrange(i as int, j as int));
            }
        }
        proof {
            lemma_seg_len_bounds(rest);
            assert forall|m: int| 0 <= m < j - i implies rest[m] != '/' by {
                assert(rest[m] == v@[i + m]);
            }
            if (j as int) < v@.len() {
                assert(rest[j - i] == v@[j as int]);
            }
            assert(seg_len(rest) == j - i) by {
                if seg_len(rest) < j - i {
                    assert(rest[seg_len(rest)] == '/');
                    assert(rest[seg_len(rest)] != '/');
                } else if seg_len(rest) > j - i {
                    assert(rest[j - i] != '/');
                    assert((j as int) < v@.len());
                }
            }
            assert(cur@ =~= rest.subrange(0, seg_len(rest)));
        }
        let ghost before = views_of(out@);
        out.push(cur);
        proof {
            assert(views_of(out@) =~= before.push(cur@));
        }
        split_segments_from(v, j, out);
        proof {
            assert(rest.skip(seg_len(rest)) =~= v@.skip(j as int));
            assert(segments_of(rest) == seq![rest.subrange(0, seg_len(rest))] + segments_of(
                rest.skip(seg_len(rest)),
            ));
            assert(views_of(out@) =~= views_of(old(out)@) + segments_of(rest));
        }
    }
}

// ------------------------------------------------------------------
// The route tree
// ------------------------------------------------------------------

/// One node: children keyed by literal segment (or `*` for a parameterized
/// segment), and the node's own parameter name.
pub struct RouteNode {
    pub children: Vec<(Vec<char>, usize)>,
    pub parameter_name: Vec<char>,
}

/// The prefix tree, nodes in an arena.
pub struct RouteTree {
    pub nodes: Vec<RouteNode>,
}

/// The children of a node, as key and index pairs.
pub open spec fn kids(n: RouteNode) -> Seq<(Seq<char>, int)> {
    Seq::new(n.children@.len(), |j: int| (n.children@[j].0@, n.children@[j].1 as int))
}

/// The parameter name of a node.
pub open spec fn pname(n: RouteNode) -> Seq<char> {
    n.parameter_name@
}

/// The index under the first child keyed `key`, if any.
pub open spec fn child_lookup(cs: Seq<(Seq<char>, int)>, key: Seq<char>) -> Option<int>
    decreases cs.len(),
{
    if cs.len() == 0 {
        None
    } else if cs[0].0 == key {
        Some(cs[0].1)
    } else {
        child_lookup(cs.drop_first(), key)
    }
}

/// Well-formedness of the arena: a root exists, children stay in bounds and
/// strictly after their parents, and a literal child's parameter name is its
/// key.
pub open spec fn tree_wf(nodes: Seq<RouteNode>) -> bool {
    &&& nodes.len() >= 1
    &&& forall|i: int, j: int|
        0 <= i < nodes.len() && 0 <= j < kids(nodes[i]).len() ==> i < (
        #[trigger] kids(nodes[i])[j]).1 < nodes.len()
    &&& forall|i: int, j: int|
        0 <= i < nodes.len() && 0 <= j < kids(nodes[i]).len() && (#[trigger] kids(
            nodes[i],
        )[j]).0 != "*"@ ==> pname(nodes[kids(nodes[i])[j].1]) == kids(nodes[i])[j].0
}

/// A found child names an in-range index, after its parent.
proof fn lemma_child_lookup_member(cs: Seq<(Seq<char>, int)>, key: Seq<char>)
    ensures
        child_lookup(cs, key) matches Some(c) ==> exists|j: int|
            0 <= j < cs.len() && cs[j].0 == key && cs[j].1 == c,
    decreases cs.len(),
{
    if cs.len() != 0 && cs[0].0 != key {
        lemma_child_lookup_member(cs.drop_first(), key);
        if child_lookup(cs, key) is Some {
            let c = child_lookup(cs, key)->Some_0;
            let tail = cs.drop_first();
            let j = choose|j: int| 0 <= j < tail.len() && tail[j].0 == key && tail[j].1 == c;
            assert(cs[j + 1].0 == key && cs[j + 1].1 == c);
        }
    }
}

/// In a well-formed tree a found child is a valid node after its parent.
proof fn lemma_child_in_bounds(nodes: Seq<RouteNode>, i: int, key: Seq<char>)
    requires
        tree_wf(nodes),
        0 <= i < nodes.len(),
        child_lookup(kids(nodes[i]), key) is Some,
    ensures
        i < child_lookup(kids(nodes[i]), key)->Some_0 < nodes.len(),
        key != "*"@ ==> pname(nodes[child_lookup(kids(nodes[i]), key)->Some_0]) == key,
{
    lemma_child_lookup_member(kids(nodes[i]), key);
}

/// The walk of §route resolution: literal child first, else the wildcard
/// child with a binding recorded, else failure. On success: the parameter
/// names along the path, and the bindings.
pub open spec fn resolve_from(nodes: Seq<RouteNode>, i: int, segs: Seq<Seq<char>>) -> Option<
    (Seq<Seq<char>>, Seq<(Seq<char>, Seq<char>)>),
>
    decreases segs.len(),
{
    if segs.len() == 0 {
        Some((Seq::empty(), Seq::empty()))
    } else {
        let seg = segs[0];
        match child_lookup(kids(nodes[i]), seg) {
            Some(c) => match resolve_from(nodes, c, segs.drop_first()) {
                Some(rest) => Some((seq![pname(nodes[c])] + rest.0, rest.1)),
                None => None,
            },
            None => match child_lookup(kids(nodes[i]), "*"@) {
                Some(c) => match resolve_from(nodes, c, segs.drop_first()) {
                    Some(rest) => Some(
                        (
                            seq![pname(nodes[c])] + rest.0,
                            seq![(pname(nodes[c]), seg)] + rest.1,
                        ),
                    ),
                    None => None,
                },
                None => None,
            },
        }
    }
}

/// The canonical route key: parameter names joined by `/`.
pub open spec fn join_slash(names: Seq<Seq<char>>) -> Seq<char>
    decreases names.len(),
{
    if names.len() == 0 {
        Seq::empty()
    } else if names.len() == 1 {
        names[0]
    } else {
        names[0] + seq!['/'] + join_slash(names.drop_first())
    }
}

/// Copy a character slice.
fn clone_chars(v: &[char]) -> (r: Vec<char>)
    ensures
        r@ == v@,
{
    let mut r: Vec<char> = Vec::new();
    let mut i: usize = 0;
    while i < v.len()
        invariant
            i <= v@.len(),
            r@ == v@.subrange(0, i as int),
        decreases v@.len() - i,
    {
        r.push(v[i]);
        i = i + 1;
        proof {
            assert(r@ =~= v@.subrange(0, i as int));
        }
    }
    proof {
        assert(r@ =~= v@);
    }
    r
}

/// Find the first child keyed `key`.
fn child_find(n: &RouteNode, key: &[char]) -> (r: Option<usize>)
    ensures
        match r {
            Some(c) => child_lookup(kids(*n), key@) == Some(c as int),
            None => child_lookup(kids(*n), key@) is None,
        },
{
    let ghost cs = kids(*n);
    proof {
        assert(cs.subrange(0, cs.len() as int) =~= cs);
    }
    let mut i: usize = 0;
    while i < n.children.len()
        invariant
            i <= cs.len(),
            cs == kids(*n),
            cs.len() == n.children@.len(),
            forall|j: int|
                0 <= j < cs.len() ==> cs[j] == (n.children@[j].0@, n.children@[j].1 as int),
            child_lookup(cs, key@) == child_lookup(cs.subrange(i as int, cs.len() as int), key@),
        decreases cs.len() - i,
    {
        let ghost tail = cs.subrange(i as int, cs.len() as int);
        proof {
            assert(tail[0] == cs[i as int]);
            assert(tail.drop_first() =~= cs.subrange(i + 1, cs.len() as int));
        }
        if chars_eq(n.children[i].0.as_slice(), key) {
            return Some(n.children[i].1);
        }
        i = i + 1;
    }
    proof {
        assert(cs.subrange(i as int, cs.len() as int).len() == 0);
    }
    None
}

/// Whether a route path segment declares a parameter (`:name`).
pub open spec fn seg_is_param(s: Seq<char>) -> bool {
    s.len() > 0 && s[0] == ':'
}

/// The tree keys a route path's segments insert under: the segment itself,
/// or `*` for a parameterized one.
pub open spec fn keys_of(segs: Seq<Seq<char>>) -> Seq<Seq<char>> {
    Seq::new(segs.len(), |j: int| if seg_is_param(segs[j]) { "*"@ } else { segs[j] })
}

/// Whether the tree holds, from node `i`, a chain of children under `keys`
/// whose parameter names are `names`.
pub open spec fn contains_from(
    nodes: Seq<RouteNode>,
    i: int,
    keys: Seq<Seq<char>>,
    names: Seq<Seq<char>>,
) -> bool
    decreases keys.len(),
{
    keys.len() == names.len() && (keys.len() == 0 || {
        match child_lookup(kids(nodes[i]), keys[0]) {
            Some(c) => pname(nodes[c]) == names[0] && contains_from(
                nodes,
                c,
                keys.drop_first(),
                names.drop_first(),
            ),
            None => false,
        }
    })
}

/// One arena extends another: old nodes keep their parameter names, old
/// children stay in place, new children and nodes only come after.
pub open spec fn tree_extends(n2: Seq<RouteNode>, n1: Seq<RouteNode>) -> bool {
    &&& n1.len() <= n2.len()
    &&& forall|i: int| 0 <= i < n1.len() ==> pname(#[trigger] n2[i]) == pname(n1[i])
    &&& forall|i: int|
        0 <= i < n1.len() ==> kids(n1[i]).len() <= kids(#[trigger] n2[i]).len() && kids(
            n2[i],
        ).subrange(0, kids(n1[i]).len() as int) == kids(n1[i])
}

/// A first match among the old children is still the first match among the
/// extended children.
proof fn lemma_child_lookup_prefix(cs1: Seq<(Seq<char>, int)>, cs2: Seq<(Seq<char>, int)>, key: Seq<char>)
    requires
        cs1.len() <= cs2.len(),
        cs2.subrange(0, cs1.len() as int) == cs1,
    ensures
        child_lookup(cs1, key) matches Some(c) ==> child_lookup(cs2, key) == Some(c),
    decreases cs1.len(),
{
    if cs1.len() != 0 {
        assert(cs2[0] == cs2.subrange(0, cs1.len() as int)[0]);
        assert(cs1[0] == cs2[0]);
        if cs1[0].0 != key {
            assert(cs2.drop_first().subrange(0, cs1.drop_first().len() as int) =~= cs1
                .drop_first());
            lemma_child_lookup_prefix(cs1.drop_first(), cs2.drop_first(), key);
        }
    }
}

/// Containment survives extension of the tree.
proof fn lemma_contains_extends(
    n1: Seq<RouteNode>,
    n2: Seq<RouteNode>,
    i: int,
    keys: Seq<Seq<char>>,
    names: Seq<Seq<char>>,
)
    requires
        tree_wf(n1),
        tree_extends(n2, n1),
        0 <= i < n1.len(),
        contains_from(n1, i, keys, names),
    ensures
        contains_from(n2, i, keys, names),
    decreases keys.len(),
{
    if keys.len() != 0 {
        let c = child_lookup(kids(n1[i]), keys[0])->Some_0;
        lemma_child_in_bounds(n1, i, keys[0]);
        lemma_child_lookup_prefix(kids(n1[i]), kids(n2[i]), keys[0]);
        lemma_contains_extends(n1, n2, c, keys.drop_first(), names.drop_first());
    }
}

/// Looking a key up among children extended by one entry: an existing first
/// match is kept, otherwise the new entry answers for its own key.
proof fn lemma_child_lookup_push(cs: Seq<(Seq<char>, int)>, e: (Seq<char>, int), key: Seq<char>)
    ensures
        child_lookup(cs.push(e), key) == match child_lookup(cs, key) {
            Some(c) => Some(c),
            None => if e.0 == key {
                Some(e.1)
            } else {
                None
            },
        },
    decreases cs.len(),
{
    let p = cs.push(e);
    if cs.len() == 0 {
        assert(p[0] == e);
        assert(p.drop_first() =~= Seq::<(Seq<char>, int)>::empty());
    } else {
        assert(p[0] == cs[0]);
        if cs[0].0 != key {
            assert(p.drop_first() =~= cs.drop_first().push(e));
            lemma_child_lookup_push(cs.drop_first(), e, key);
        }
    }
}

/// Extension is reflexive.
proof fn lemma_tree_extends_refl(n: Seq<RouteNode>)
    ensures
        tree_extends(n, n),
{
    assert forall|i: int| 0 <= i < n.len() implies kids(n[i]).len() <= kids(#[trigger] n[i]).len()
        && kids(n[i]).subrange(0, kids(n[i]).len() as int) == kids(n[i]) by {
        assert(kids(n[i]).subrange(0, kids(n[i]).len() as int) =~= kids(n[i]));
    }
}

/// Extension composes.
proof fn lemma_tree_extends_trans(n3: Seq<RouteNode>, n2: Seq<RouteNode>, n1: Seq<RouteNode>)
    requires
        tree_extends(n3, n2),
        tree_extends(n2, n1),
    ensures
        tree_extends(n3, n1),
{
    assert forall|i: int| 0 <= i < n1.len() implies kids(n1[i]).len() <= kids(
        #[trigger] n3[i],
    ).len() && kids(n3[i]).subrange(0, kids(n1[i]).len() as int) == kids(n1[i]) by {
        assert(kids(n3[i]).subrange(0, kids(n2[i]).len() as int) == kids(n2[i]));
        assert(kids(n3[i]).subrange(0, kids(n1[i]).len() as int) =~= kids(n3[i]).subrange(
            0,
            kids(n2[i]).len() as int,
        ).subrange(0, kids(n1[i]).len() as int));
        assert(kids(n2[i]).subrange(0, kids(n1[i]).len() as int) == kids(n1[i]));
    }
}

/// Insert the chain for `segs[at..]` below node `i`, reusing children that
/// are already there; the returned names are the parameter names along the
/// chain.
fn insert_from(nodes: &mut Vec<RouteNode>, i: usize, segs: &Vec<Vec<char>>, at: usize) -> (names:
    Vec<Vec<char>>)
    requires
        tree_wf(old(nodes)@),
        i < old(nodes)@.len(),
        at <= segs@.len(),
    ensures
        tree_wf(final(nodes)@),
        tree_extends(final(nodes)@, old(nodes)@),
        contains_from(
            final(nodes)@,
            i as int,
            keys_of(views_of(segs@).skip(at as int)),
            views_of(names@),
        ),
    decreases segs@.len() - at,
{
    let ghost keys = keys_of(views_of(segs@).skip(at as int));
    if at == segs.len() {
        let names: Vec<Vec<char>> = Vec::new();
        proof {
            lemma_tree_extends_refl(nodes@);
            assert(keys.len() == 0);
            assert(views_of(names@).len() == 0);
        }
        names
    } else {
        let seg = &segs[at];
        let is_param = seg.len() > 0 && seg[0] == ':';
        let key: Vec<char> = if is_param {
            let mut k: Vec<char> = Vec::new();
            k.push('*');
            k
        } else {
            clone_chars(seg.as_slice())
        };
        proof {
            reveal_strlit("*");
            if is_param {
                assert(key@ =~= "*"@);
            }
            assert(keys[0] == key@);
        }
        let found = child_find(&nodes[i], key.as_slice());
        match found {
            Some(c) => {
                proof {
                    lemma_child_in_bounds(nodes@, i as int, key@);
                }
                let pn = clone_chars(nodes[c].parameter_name.as_slice());
                let ghost mid = nodes@;
                let mut rest = insert_from(nodes, c, segs, at + 1);
                let mut names: Vec<Vec<char>> = Vec::new();
                names.push(pn);
                let ghost rest_views = views_of(rest@);
                names.append(&mut rest);
                proof {
                    assert(views_of(names@) =~= seq![pname(mid[c as int])] + rest_views);
                    lemma_child_lookup_prefix(
                        kids(mid[i as int]),
                        kids(nodes@[i as int]),
                        key@,
                    );
                    assert(pname(nodes@[c as int]) == pname(mid[c as int]));
                    assert(keys.drop_first() =~= keys_of(views_of(segs@).skip(at + 1)));
                    assert(views_of(names@).drop_first() =~= rest_views);
                    assert(contains_from(nodes@, i as int, keys, views_of(names@)));
                }
                names
            }
            None => {
                let pn = clone_chars(seg.as_slice());
                let fresh = RouteNode { children: Vec::new(), parameter_name: pn };
                let idx = nodes.len();
                let ghost before = nodes@;
                nodes.push(fresh);
                let entry = (key, idx);
                let ghost ekey = entry.0@;
                nodes[i].children.push(entry);
                let ghost mid = nodes@;
                proof {
                    // The new arena: one fresh leaf, and one more child under i.
                    assert(mid.len() == before.len() + 1);
                    assert(forall|m: int|
                        0 <= m < mid.len() && m != i ==> mid[m] == if m < before.len() {
                            before[m]
                        } else {
                            fresh
                        });
                    assert(kids(mid[i as int]) =~= kids(before[i as int]).push(
                        (ekey, idx as int),
                    ));
                    assert(pname(mid[i as int]) == pname(before[i as int]));
                    assert(kids(mid[idx as int]).len() == 0);
                    assert(pname(mid[idx as int]) == seg@);
                    assert forall|m: int, j: int|
                        0 <= m < mid.len() && 0 <= j < kids(mid[m]).len() implies m < (
                        #[trigger] kids(mid[m])[j]).1 < mid.len() by {
                        if m == i && j == kids(mid[m]).len() - 1 {
                        } else if m < before.len() {
                            assert(kids(mid[m])[j] == kids(before[m])[j]);
                        }
                    }
                    assert forall|m: int, j: int|
                        0 <= m < mid.len() && 0 <= j < kids(mid[m]).len() && (#[trigger] kids(
                            mid[m],
                        )[j]).0 != "*"@ implies pname(mid[kids(mid[m])[j].1]) == kids(
                        mid[m],
                    )[j].0 by {
                        if m == i && j == kids(mid[m]).len() - 1 {
                            assert(kids(mid[m])[j] == (ekey, idx as int));
                            if ekey != "*"@ {
                                assert(!is_param);
                                assert(ekey == seg@);
                            }
                        } else if m < before.len() {
                            assert(kids(mid[m])[j] == kids(before[m])[j]);
                            assert(kids(before[m])[j].1 < before.len());
                            assert(pname(mid[kids(before[m])[j].1]) == pname(
                                before[kids(before[m])[j].1],
                            ));
                        }
                    }
                    assert(tree_wf(mid));
                    assert forall|m: int| 0 <= m < before.len() implies kids(before[m]).len()
                        <= kids(#[trigger] mid[m]).len() && kids(mid[m]).subrange(
                        0,
                        kids(before[m]).len() as int,
                    ) == kids(before[m]) by {
                        assert(kids(mid[m]).subrange(0, kids(before[m]).len() as int) =~= kids(
                            before[m],
                        ));
                    }
                    assert(tree_extends(mid, before));
                    lemma_child_lookup_push(kids(before[i as int]), (ekey, idx as int), key@);
                }
                let mut rest = insert_from(nodes, idx, segs, at + 1);
                let pn2 = clone_chars(seg.as_slice());
                let mut names: Vec<Vec<char>> = Vec::new();
                names.push(pn2);
                let ghost rest_views = views_of(rest@);
                names.append(&mut rest);
                proof {
                    assert(views_of(names@) =~= seq![seg@] + rest_views);
                    lemma_child_lookup_prefix(
                        kids(mid[i as int]),
                        kids(nodes@[i as int]),
                        key@,
                    );
                    assert(child_lookup(kids(nodes@[i as int]), key@) == Some(idx as int));
                    assert(pname(nodes@[idx as int]) == pname(mid[idx as int]));
                    assert(keys.drop_first() =~= keys_of(views_of(segs@).skip(at + 1)));
                    assert(views_of(names@).drop_first() =~= rest_views);
                    assert(contains_from(nodes@, i as int, keys, views_of(names@)));
                    lemma_tree_extends_trans(nodes@, mid, before);
                }
                names
            }
        }
    }
}

/// Append the names joined by `/` from index `i` on.
fn push_joined(names: &Vec<Vec<char>>, i: usize, out: &mut Vec<char>)
    requires
        i < names@.len(),
    ensures
        final(out)@ == old(out)@ + join_slash(views_of(names@).skip(i as int)),
    decreases names@.len() - i,
{
    let ghost tail = views_of(names@).skip(i as int);
    let mut k: usize = 0;
    while k < names[i].len()
        invariant
            i < names@.len(),
            k <= names@[i as int]@.len(),
            out@ == old(out)@ + names@[i as int]@.subrange(0, k as int),
        decreases names@[i as int]@.len() - k,
    {
        out.push(names[i][k]);
        k = k + 1;
        proof {
            assert(out@ =~= old(out)@ + names@[i as int]@.subrange(0, k as int));
        }
    }
    proof {
        let cur = names@[i as int]@;
        assert(cur.subrange(0, cur.len() as int) =~= cur);
        assert(tail[0] == cur);
    }
    let n: usize = names.len();
    if i + 1 < n {
        out.push('/');
        push_joined(names, i + 1, out);
        proof {
            assert(tail.drop_first() =~= views_of(names@).skip(i + 1));
            assert(join_slash(tail) == tail[0] + seq!['/'] + join_slash(tail.drop_first()));
            assert(out@ =~= old(out)@ + join_slash(tail));
        }
    } else {
        proof {
            assert(tail.len() == 1);
            assert(join_slash(tail) == tail[0]);
            assert(out@ =~= old(out)@ + join_slash(tail));
        }
    }
}

/// Resolve the segments from `at` on, walking down from node `i`.
fn resolve_nodes_from(
    nodes: &Vec<RouteNode>,
    i: usize,
    segs: &Vec<Vec<char>>,
    at: usize,
) -> (r: Option<(Vec<Vec<char>>, Vec<(String, String)>)>)
    requires
        tree_wf(nodes@),
        i < nodes@.len(),
        at <= segs@.len(),
    ensures
        match (r, resolve_from(nodes@, i as int, views_of(segs@).skip(at as int))) {
            (Some(p), Some(q)) => views_of(p.0@) == q.0 && p.1.deep_view() == q.1,
            (None, None) => true,
            _ => false,
        },
    decreases segs@.len() - at,
{
    let ghost rest = views_of(segs@).skip(at as int);
    if at == segs.len() {
        proof {
            assert(rest.len() == 0);
        }
        let names: Vec<Vec<char>> = Vec::new();
        let binds: Vec<(String, String)> = Vec::new();
        proof {
            assert(views_of(names@) =~= Seq::<Seq<char>>::empty());
            assert(binds.deep_view() =~= Seq::<(Seq<char>, Seq<char>)>::empty());
        }
        Some((names, binds))
    } else {
        let seg = &segs[at];
        proof {
            assert(rest[0] == seg@);
            assert(rest.drop_first() =~= views_of(segs@).skip(at + 1));
        }
        let found = child_find(&nodes[i], seg.as_slice());
        match found {
            Some(c) => {
                proof {
                    lemma_child_in_bounds(nodes@, i as int, seg@);
                }
                match resolve_nodes_from(nodes, c, segs, at + 1) {
                    Some(p) => {
                        let (mut rnames, binds) = p;
                        let pn = clone_chars(nodes[c].parameter_name.as_slice());
                        let ghost rest_views = views_of(rnames@);
                        let mut names: Vec<Vec<char>> = Vec::new();
                        names.push(pn);
                        names.append(&mut rnames);
                        proof {
                            assert(views_of(names@) =~= seq![pname(nodes@[c as int])]
                                + rest_views);
                        }
                        Some((names, binds))
                    }
                    None => None,
                }
            }
            None => {
                let mut star: Vec<char> = Vec::new();
                star.push('*');
                proof {
                    reveal_strlit("*");
                    assert(star@ =~= "*"@);
                }
                let wild = child_find(&nodes[i], star.as_slice());
                match wild {
                    Some(c) => {
                        proof {
                            lemma_child_in_bounds(nodes@, i as int, "*"@);
                        }
                        match resolve_nodes_from(nodes, c, segs, at + 1) {
                            Some(p) => {
                                let (mut rnames, mut rbinds) = p;
                                let pn = clone_chars(nodes[c].parameter_name.as_slice());
                                let ghost rest_views = views_of(rnames@);
                                let ghost rbinds_views = rbinds.deep_view();
                                let mut names: Vec<Vec<char>> = Vec::new();
                                names.push(pn);
                                names.append(&mut rnames);
                                let b0 = (
                                    string_of(nodes[c].parameter_name.as_slice()),
                                    string_of(seg.as_slice()),
                                );
                                let mut binds: Vec<(String, String)> = Vec::new();
                                binds.push(b0);
                                binds.append(&mut rbinds);
                                proof {
                                    assert(views_of(names@) =~= seq![pname(nodes@[c as int])]
                                        + rest_views);
                                    assert(binds.deep_view() =~~= seq![
                                        (pname(nodes@[c as int]), seg@),
                                    ] + rbinds_views);
                                }
                                Some((names, binds))
                            }
                            None => None,
                        }
                    }
                    None => None,
                }
            }
        }
    }
}

// ------------------------------------------------------------------
// The laws of resolution
// ------------------------------------------------------------------

/// Law: splitting is blind to a leading slash.
pub proof fn lemma_segments_leading_slash(p: Seq<char>)
    ensures
        segments_of(seq!['/'] + p) == segments_of(p),
{
    let q = seq!['/'] + p;
    assert(q[0] == '/');
    assert(q.drop_first() =~= p);
}

/// What a segment run makes of concatenated text: it either ends inside the
/// first part or spans it whole.
proof fn lemma_seg_len_append(s: Seq<char>, t: Seq<char>)
    ensures
        seg_len(s + t) == if seg_len(s) < s.len() {
            seg_len(s)
        } else {
            s.len() + seg_len(t)
        },
    decreases s.len(),
{
    lemma_seg_len_bounds(s);
    if s.len() == 0 {
        assert(s + t =~= t);
    } else {
        assert((s + t)[0] == s[0]);
        if s[0] != '/' {
            assert((s + t).drop_first() =~= s.drop_first() + t);
            lemma_seg_len_bounds(s.drop_first());
            lemma_seg_len_append(s.drop_first(), t);
        }
    }
}

/// Law: splitting is blind to a trailing slash.
pub proof fn lemma_segments_trailing_slash(p: Seq<char>)
    ensures
        segments_of(p + seq!['/']) == segments_of(p),
    decreases p.len(),
{
    let q = p + seq!['/'];
    if p.len() == 0 {
        assert(q =~= seq!['/']);
        assert(q[0] == '/');
        assert(q.drop_first() =~= Seq::<char>::empty());
        assert(segments_of(q) == segments_of(q.drop_first()));
        assert(segments_of(q.drop_first()) == Seq::<Seq<char>>::empty());
        assert(segments_of(p) == Seq::<Seq<char>>::empty());
    } else if p[0] == '/' {
        assert(q[0] == '/');
        assert(q.drop_first() =~= p.drop_first() + seq!['/']);
        lemma_segments_trailing_slash(p.drop_first());
        assert(segments_of(q) == segments_of(q.drop_first()));
        assert(segments_of(p) == segments_of(p.drop_first()));
    } else {
        lemma_seg_len_bounds(p);
        lemma_seg_len_append(p, seq!['/']);
        assert(seq!['/'][0] == '/');
        assert(seg_len(seq!['/']) == 0);
        let k = seg_len(p);
        assert(seg_len(q) == k);
        assert(q[0] == p[0]);
        assert(q.subrange(0, k) =~= p.subrange(0, k));
        assert(q.skip(k) =~= p.skip(k) + seq!['/']);
        lemma_segments_trailing_slash(p.skip(k));
        assert(k >= 1);
        assert(segments_of(q) == seq![q.subrange(0, k)] + segments_of(q.skip(k)));
        assert(segments_of(p) == seq![p.subrange(0, k)] + segments_of(p.skip(k)));
        assert(segments_of(q) == segments_of(p));
    }
}

/// Law: splitting collapses doubled slashes.
pub proof fn lemma_segments_double_slash(a: Seq<char>, b: Seq<char>)
    ensures
        segments_of(a + seq!['/', '/'] + b) == segments_of(a + seq!['/'] + b),
    decreases a.len(),
{
    let u = a + seq!['/', '/'] + b;
    let w = a + seq!['/'] + b;
    if a.len() == 0 {
        assert(u[0] == '/');
        assert(w[0] == '/');
        assert(u.drop_first() =~= seq!['/'] + b);
        assert(w.drop_first() =~= b);
        lemma_segments_leading_slash(b);
    } else if a[0] == '/' {
        assert(u[0] == '/');
        assert(w[0] == '/');
        assert(u.drop_first() =~= a.drop_first() + seq!['/', '/'] + b);
        assert(w.drop_first() =~= a.drop_first() + seq!['/'] + b);
        lemma_segments_double_slash(a.drop_first(), b);
    } else {
        lemma_seg_len_bounds(a);
        assert(u =~= a + (seq!['/', '/'] + b));
        assert(w =~= a + (seq!['/'] + b));
        lemma_seg_len_append(a, seq!['/', '/'] + b);
        lemma_seg_len_append(a, seq!['/'] + b);
        assert((seq!['/', '/'] + b)[0] == '/');
        assert(seg_len(seq!['/', '/'] + b) == 0);
        assert((seq!['/'] + b)[0] == '/');
        assert(seg_len(seq!['/'] + b) == 0);
        let k = seg_len(a);
        assert(seg_len(u) == k);
        assert(seg_len(w) == k);
        assert(u[0] == a[0]);
        assert(w[0] == a[0]);
        assert(u.subrange(0, k) =~= a.subrange(0, k));
        assert(w.subrange(0, k) =~= a.subrange(0, k));
        assert(u.skip(k) =~= a.skip(k) + seq!['/', '/'] + b);
        assert(w.skip(k) =~= a.skip(k) + seq!['/'] + b);
        assert(k >= 1);
        lemma_segments_double_slash(a.skip(k), b);
        assert(segments_of(u) == seq![u.subrange(0, k)] + segments_of(u.skip(k)));
        assert(segments_of(w) == seq![w.subrange(0, k)] + segments_of(w.skip(k)));
    }
}

/// Law: resolution sees a path only through its segments, so two spellings
/// with the same segments resolve alike.
pub proof fn lemma_resolution_by_segments(
    nodes: Seq<RouteNode>,
    p1: Seq<char>,
    p2: Seq<char>,
)
    requires
        segments_of(p1) == segments_of(p2),
    ensures
        resolve_from(nodes, 0, segments_of(p1)) == resolve_from(nodes, 0, segments_of(p2)),
{
}

/// The bindings a walk extracts: at each wildcard step, the node's
/// parameter name bound to the concrete segment.
pub open spec fn binds_of(
    keys: Seq<Seq<char>>,
    names: Seq<Seq<char>>,
    segs: Seq<Seq<char>>,
) -> Seq<(Seq<char>, Seq<char>)>
    decreases keys.len(),
{
    if keys.len() == 0 {
        Seq::empty()
    } else {
        let rest = binds_of(keys.drop_first(), names.drop_first(), segs.drop_first());
        if keys[0] == "*"@ {
            seq![(names[0], segs[0])] + rest
        } else {
            rest
        }
    }
}

/// No literal sibling captures a wildcard step of the walk down `keys`.
pub open spec fn no_shadowing(
    nodes: Seq<RouteNode>,
    i: int,
    keys: Seq<Seq<char>>,
    segs: Seq<Seq<char>>,
) -> bool
    decreases keys.len(),
{
    keys.len() == 0 || {
        let kd = kids(nodes[i]);
        if keys[0] == "*"@ {
            &&& child_lookup(kd, segs[0]) is None
            &&& match child_lookup(kd, "*"@) {
                Some(c) => no_shadowing(nodes, c, keys.drop_first(), segs.drop_first()),
                None => true,
            }
        } else {
            match child_lookup(kd, keys[0]) {
                Some(c) => no_shadowing(nodes, c, keys.drop_first(), segs.drop_first()),
                None => true,
            }
        }
    }
}

/// Law: a registered route resolves. If the tree holds a chain under
/// `keys` whose parameter names are `names`, and the concrete segments
/// agree with `keys` at every literal step, and no literal sibling captures
/// a wildcard step, then resolution succeeds, yields exactly `names` — and
/// with them the canonical route key — and binds each wildcard's name to
/// the concrete segment in its position.
pub proof fn lemma_registered_route_resolves(
    nodes: Seq<RouteNode>,
    i: int,
    keys: Seq<Seq<char>>,
    names: Seq<Seq<char>>,
    segs: Seq<Seq<char>>,
)
    requires
        tree_wf(nodes),
        0 <= i < nodes.len(),
        contains_from(nodes, i, keys, names),
        segs.len() == keys.len(),
        forall|j: int| 0 <= j < keys.len() && keys[j] != "*"@ ==> segs[j] == keys[j],
        no_shadowing(nodes, i, keys, segs),
    ensures
        resolve_from(nodes, i, segs) == Some((names, binds_of(keys, names, segs))),
    decreases keys.len(),
{
    if keys.len() == 0 {
        assert(names.len() == 0);
        assert(segs.len() == 0);
        assert(names =~= Seq::<Seq<char>>::empty());
        assert(binds_of(keys, names, segs) =~= Seq::<(Seq<char>, Seq<char>)>::empty());
    } else {
        let kd = kids(nodes[i]);
        let c = child_lookup(kd, keys[0])->Some_0;
        lemma_child_in_bounds(nodes, i, keys[0]);
        assert forall|j: int|
            0 <= j < keys.drop_first().len() && keys.drop_first()[j] != "*"@ implies segs
            .drop_first()[j] == keys.drop_first()[j] by {
            assert(keys.drop_first()[j] == keys[j + 1]);
            assert(segs.drop_first()[j] == segs[j + 1]);
        }
        lemma_registered_route_resolves(
            nodes,
            c,
            keys.drop_first(),
            names.drop_first(),
            segs.drop_first(),
        );
        if keys[0] == "*"@ {
            assert(child_lookup(kd, segs[0]) is None);
            let r = resolve_from(nodes, i, segs);
            assert(names =~= seq![pname(nodes[c])] + names.drop_first());
            assert(binds_of(keys, names, segs) == seq![(names[0], segs[0])] + binds_of(
                keys.drop_first(),
                names.drop_first(),
                segs.drop_first(),
            ));
        } else {
            assert(segs[0] == keys[0]);
            assert(names =~= seq![pname(nodes[c])] + names.drop_first());
        }
    }
}

/// All-literal chains never shadow.
proof fn lemma_literal_no_shadowing(
    nodes: Seq<RouteNode>,
    i: int,
    keys: Seq<Seq<char>>,
    segs: Seq<Seq<char>>,
)
    requires
        forall|j: int| 0 <= j < keys.len() ==> keys[j] != "*"@,
    ensures
        no_shadowing(nodes, i, keys, segs),
    decreases keys.len(),
{
    if keys.len() != 0 {
        assert(keys[0] != "*"@);
        assert forall|j: int| 0 <= j < keys.drop_first().len() implies keys.drop_first()[j]
            != "*"@ by {
            assert(keys.drop_first()[j] == keys[j + 1]);
        }
        match child_lookup(kids(nodes[i]), keys[0]) {
            Some(c) => {
                lemma_literal_no_shadowing(nodes, c, keys.drop_first(), segs.drop_first());
            }
            None => {}
        }
    }
}

/// All-literal chains bind nothing.
proof fn lemma_literal_binds_empty(
    keys: Seq<Seq<char>>,
    names: Seq<Seq<char>>,
    segs: Seq<Seq<char>>,
)
    requires
        forall|j: int| 0 <= j < keys.len() ==> keys[j] != "*"@,
    ensures
        binds_of(keys, names, segs) == Seq::<(Seq<char>, Seq<char>)>::empty(),
    decreases keys.len(),
{
    if keys.len() != 0 {
        assert(keys[0] != "*"@);
        assert forall|j: int| 0 <= j < keys.drop_first().len() implies keys.drop_first()[j]
            != "*"@ by {
            assert(keys.drop_first()[j] == keys[j + 1]);
        }
        lemma_literal_binds_empty(keys.drop_first(), names.drop_first(), segs.drop_first());
        assert(binds_of(keys, names, segs) =~= Seq::<(Seq<char>, Seq<char>)>::empty());
    }
}

/// Law: a registered all-literal route resolves to its own key, with no
/// parameters bound.
pub proof fn lemma_literal_route_resolves(
    nodes: Seq<RouteNode>,
    i: int,
    keys: Seq<Seq<char>>,
    names: Seq<Seq<char>>,
)
    requires
        tree_wf(nodes),
        0 <= i < nodes.len(),
        contains_from(nodes, i, keys, names),
        forall|j: int| 0 <= j < keys.len() ==> keys[j] != "*"@,
    ensures
        resolve_from(nodes, i, keys) == Some((names, Seq::<(Seq<char>, Seq<char>)>::empty())),
{
    lemma_literal_no_shadowing(nodes, i, keys, keys);
    lemma_registered_route_resolves(nodes, i, keys, names, keys);
    lemma_literal_binds_empty(keys, names, keys);
}

/// The indentation prefix: two spaces per level.
pub open spec fn indent_text(n: nat) -> Seq<char>
    decreases n,
{
    if n == 0 {
        Seq::empty()
    } else {
        indent_text((n - 1) as nat) + "  "@
    }
}

/// The listing of a node's children from `cs` on: each child as
/// `indent key:\n`, followed by its own subtree one level deeper.
pub open spec fn listing_kids(
    nodes: Seq<RouteNode>,
    i: int,
    cs: Seq<(Seq<char>, int)>,
    indent: nat,
) -> Seq<char>
    decreases nodes.len() - i, cs.len(),
        when 0 <= i < nodes.len()
{
    if cs.len() == 0 {
        Seq::empty()
    } else {
        let line = indent_text(indent) + cs[0].0 + ":\n"@;
        let sub = if i < cs[0].1 < nodes.len() {
            listing_from(nodes, cs[0].1, (indent + 1) as nat)
        } else {
            Seq::empty()
        };
        line + sub + listing_kids(nodes, i, cs.drop_first(), indent)
    }
}

/// The listing of the subtree rooted at node `i`.
pub open spec fn listing_from(nodes: Seq<RouteNode>, i: int, indent: nat) -> Seq<char>
    decreases nodes.len() - i, kids(nodes[i]).len() + 1,
        when 0 <= i < nodes.len()
{
    listing_kids(nodes, i, kids(nodes[i]), indent)
}


impl RouteTree {
    /// Well-formedness of the tree.
    pub open spec fn wf(&self) -> bool {
        tree_wf(self.nodes@)
    }

    /// An empty tree: the root alone, with an empty parameter name.
    pub fn new() -> (r: Self)
        ensures
            r.wf(),
            r.nodes@.len() == 1,
            kids(r.nodes@[0]).len() == 0,
    {
        let root = RouteNode { children: Vec::new(), parameter_name: Vec::new() };
        let mut nodes: Vec<RouteNode> = Vec::new();
        nodes.push(root);
        proof {
            assert(kids(nodes@[0]).len() == 0);
        }
        RouteTree { nodes }
    }

    /// Append two spaces per indentation level.
    fn push_indent(indent: usize, out: &mut Vec<char>)
        ensures
            final(out)@ == old(out)@ + indent_text(indent as nat),
    {
        let mut k: usize = 0;
        while k < indent
            invariant
                k <= indent,
                out@ == old(out)@ + indent_text(k as nat),
            decreases indent - k,
        {
            crate::text::push_str(out, "  ");
            k = k + 1;
        }
    }

    /// Append the listing lines for the children of node `i`, from child
    /// `j` on.
    fn push_kids(&self, i: usize, j: usize, indent: usize, out: &mut Vec<char>)
        requires
            self.wf(),
            i < self.nodes@.len(),
            j <= self.nodes@[i as int].children@.len(),
            indent + self.nodes@.len() - i <= usize::MAX,
        ensures
            final(out)@ == old(out)@ + listing_kids(
                self.nodes@,
                i as int,
                kids(self.nodes@[i as int]).skip(j as int),
                indent as nat,
            ),
        decreases self.nodes@.len() - i, self.nodes@[i as int].children@.len() - j,
    {
        let ghost nodes = self.nodes@;
        let ghost tail = kids(nodes[i as int]).skip(j as int);
        if j == self.nodes[i].children.len() {
            proof {
                assert(tail.len() == 0);
                assert(out@ =~= old(out)@ + listing_kids(nodes, i as int, tail, indent as nat));
            }
        } else {
            proof {
                assert(tail[0] == kids(nodes[i as int])[j as int]);
            }
            Self::push_indent(indent, out);
            let key = &self.nodes[i].children[j].0;
            let mut k: usize = 0;
            let ghost mid0 = out@;
            while k < key.len()
                invariant
                    k <= key@.len(),
                    key@ == nodes[i as int].children@[j as int].0@,
                    out@ == mid0 + key@.subrange(0, k as int),
                decreases key@.len() - k,
            {
                out.push(key[k]);
                k = k + 1;
                proof {
                    assert(out@ =~= mid0 + key@.subrange(0, k as int));
                }
            }
            proof {
                assert(key@.subrange(0, key@.len() as int) =~= key@);
            }
            crate::text::push_str(out, ":\n");
            let c = self.nodes[i].children[j].1;
            proof {
                assert(kids(nodes[i as int])[j as int].1 == c as int);
                assert(i < c < nodes.len());
            }
            self.push_listing(c, indent + 1, out);
            self.push_kids(i, j + 1, indent, out);
            proof {
                assert(tail.drop_first() =~= kids(nodes[i as int]).skip(j + 1));
                assert(out@ =~= old(out)@ + listing_kids(nodes, i as int, tail, indent as nat));
            }
        }
    }

    /// Append the listing of the subtree rooted at node `i`.
    fn push_listing(&self, i: usize, indent: usize, out: &mut Vec<char>)
        requires
            self.wf(),
            i < self.nodes@.len(),
            indent + self.nodes@.len() - i <= usize::MAX,
        ensures
            final(out)@ == old(out)@ + listing_from(self.nodes@, i as int, indent as nat),
        decreases self.nodes@.len() - i, self.nodes@[i as int].children@.len() + 1,
    {
        self.push_kids(i, 0, indent, out);
        proof {
            assert(kids(self.nodes@[i as int]).skip(0) =~= kids(self.nodes@[i as int]));
        }
    }

    /// The indented listing of the whole tree, one child per line.
    pub fn to_string(&self) -> (r: String)
        requires
            self.wf(),
        ensures
            r@ == listing_from(self.nodes@, 0, 0),
    {
        let ghost n = self.nodes.len();
        self.to_string_with_indent(0)
    }

    /// The indented listing of the whole tree, starting at this depth.
    fn to_string_with_indent(&self, indent: usize) -> (r: String)
        requires
            self.wf(),
            indent + self.nodes@.len() <= usize::MAX,
        ensures
            r@ == listing_from(self.nodes@, 0, indent as nat),
    {
        let mut out: Vec<char> = Vec::new();
        self.push_listing(0, indent, &mut out);
        string_of(out.as_slice())
    }

    /// Register a route path: insert its chain into the tree and return the
    /// canonical route key, the chain's parameter names joined by `/`.
    pub fn insert_path(&mut self, path: &str) -> (key: String)
        requires
            old(self).wf(),
        ensures
            final(self).wf(),
            tree_extends(final(self).nodes@, old(self).nodes@),
            exists|names: Seq<Seq<char>>|
                contains_from(final(self).nodes@, 0, keys_of(segments_of(path@)), names)
                    && key@ == join_slash(names),
    {
        let cs = chars_of(path);
        let segs = split_segments(cs.as_slice());
        let names = insert_from(&mut self.nodes, 0, &segs, 0);
        proof {
            assert(views_of(segs@).skip(0) =~= views_of(segs@));
        }
        let key: String = if names.len() == 0 {
            String::new()
        } else {
            let mut out: Vec<char> = Vec::new();
            push_joined(&names, 0, &mut out);
            proof {
                assert(views_of(names@).skip(0) =~= views_of(names@));
            }
            string_of(out.as_slice())
        };
        proof {
            let w = views_of(names@);
            assert(contains_from(self.nodes@, 0, keys_of(segments_of(path@)), w));
            if names@.len() == 0 {
                assert(join_slash(w) =~= Seq::<char>::empty());
            }
            assert(key@ == join_slash(w));
        }
        key
    }

    /// Resolve a request path: the canonical route key and the bound path
    /// parameters, or nothing when no chain matches.
    pub fn resolve(&self, path: &str) -> (r: Option<(String, Vec<(String, String)>)>)
        requires
            self.wf(),
        ensures
            match (r, resolve_from(self.nodes@, 0, segments_of(path@))) {
                (Some(p), Some(q)) => p.0@ == join_slash(q.0) && p.1.deep_view() == q.1,
                (None, None) => true,
                _ => false,
            },
    {
        let cs = chars_of(path);
        let segs = split_segments(cs.as_slice());
        proof {
            assert(views_of(segs@).skip(0) =~= views_of(segs@));
        }
        match resolve_nodes_from(&self.nodes, 0, &segs, 0) {
            Some(p) => {
                let (names, binds) = p;
                let key: String = if names.len() == 0 {
                    proof {
                        assert(join_slash(views_of(names@)) =~= Seq::<char>::empty());
                    }
                    String::new()
                } else {
                    let mut out: Vec<char> = Vec::new();
                    push_joined(&names, 0, &mut out);
                    proof {
                        assert(views_of(names@).skip(0) =~= views_of(names@));
                    }
                    string_of(out.as_slice())
                };
                Some((key, binds))
            }
            None => None,
        }
    }
}

} // verus!
