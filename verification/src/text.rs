//! Character-level text helpers shared by the wire reader, the router and
//! the session codec.
//!
//! All logic works on `Vec<char>` so that contracts can speak directly about
//! the `Seq<char>` view of a `String`.

use vstd::prelude::*;

verus! {

/// Relies on `String::push`: appends one character to the string.
#[verifier::external_body]
pub fn push_char(s: &mut String, c: char)
    ensures
        final(s)@ == old(s)@.push(c),
{
    s.push(c);
}

/// Collect the characters of a string slice into a vector.
pub fn chars_of(s: &str) -> (r: Vec<char>)
    ensures
        r@ == s@,
{
    let n: usize = s.unicode_len();
    let mut r: Vec<char> = Vec::new();
    let mut i: usize = 0;
    while i < n
        invariant
            i <= n,
            n == s@.len(),
            r@ == s@.subrange(0, i as int),
        decreases n - i,
    {
        let c = s.get_char(i);
        r.push(c);
        i = i + 1;
        proof {
            assert(r@ =~= s@.subrange(0, i as int));
        }
    }
    proof {
        assert(r@ =~= s@);
    }
    r
}

/// Build a string from a slice of characters.
pub fn string_of(v: &[char]) -> (r: String)
    ensures
        r@ == v@,
{
    let mut r = String::new();
    let mut i: usize = 0;
    while i < v.len()
        invariant
            i <= v@.len(),
            r@ == v@.subrange(0, i as int),
        decreases v@.len() - i,
    {
        push_char(&mut r, v[i]);
        i = i + 1;
        proof {
            assert(r@ =~= v@.subrange(0, i as int));
        }
    }
    proof {
        assert(r@ =~= v@);
    }
    r
}

/// The lower-case form of an ASCII letter; other characters are unchanged.
pub open spec fn lower_char(c: char) -> char {
    match c {
        'A' => 'a', 'B' => 'b', 'C' => 'c', 'D' => 'd', 'E' => 'e', 'F' => 'f',
        'G' => 'g', 'H' => 'h', 'I' => 'i', 'J' => 'j', 'K' => 'k', 'L' => 'l',
        'M' => 'm', 'N' => 'n', 'O' => 'o', 'P' => 'p', 'Q' => 'q', 'R' => 'r',
        'S' => 's', 'T' => 't', 'U' => 'u', 'V' => 'v', 'W' => 'w', 'X' => 'x',
        'Y' => 'y', 'Z' => 'z', _ => c,
    }
}

/// A sequence of characters folded to ASCII lower case.
pub open spec fn lower_seq(s: Seq<char>) -> Seq<char> {
    s.map_values(|c: char| lower_char(c))
}

/// Fold one character to ASCII lower case.
pub fn lower_char_exec(c: char) -> (r: char)
    ensures
        r == lower_char(c),
{
    match c {
        'A' => 'a', 'B' => 'b', 'C' => 'c', 'D' => 'd', 'E' => 'e', 'F' => 'f',
        'G' => 'g', 'H' => 'h', 'I' => 'i', 'J' => 'j', 'K' => 'k', 'L' => 'l',
        'M' => 'm', 'N' => 'n', 'O' => 'o', 'P' => 'p', 'Q' => 'q', 'R' => 'r',
        'S' => 's', 'T' => 't', 'U' => 'u', 'V' => 'v', 'W' => 'w', 'X' => 'x',
        'Y' => 'y', 'Z' => 'z',
        _ => c,
    }
}

/// Fold a character vector to ASCII lower case.
pub fn lower_chars(v: &[char]) -> (r: Vec<char>)
    ensures
        r@ == lower_seq(v@),
{
    let mut r: Vec<char> = Vec::new();
    let mut i: usize = 0;
    while i < v.len()
        invariant
            i <= v@.len(),
            r@ == lower_seq(v@.subrange(0, i as int)),
        decreases v@.len() - i,
    {
        r.push(lower_char_exec(v[i]));
        i = i + 1;
        proof {
            assert(r@ =~= lower_seq(v@.subrange(0, i as int)));
        }
    }
    proof {
        assert(v@.subrange(0, v@.len() as int) =~= v@);
    }
    r
}

/// Whether a character is ASCII whitespace (space, tab, carriage return,
/// line feed), the forms that occur in HTTP header text.
pub open spec fn is_ws(c: char) -> bool {
    c == ' ' || c == '\t' || c == '\r' || c == '\n'
}

/// Whether a character is ASCII whitespace.
pub fn is_ws_exec(c: char) -> (r: bool)
    ensures
        r == is_ws(c),
{
    c == ' ' || c == '\t' || c == '\r' || c == '\n'
}

/// The number of leading whitespace characters of a sequence.
pub open spec fn ws_prefix_len(s: Seq<char>) -> int
    decreases s.len(),
{
    if s.len() == 0 || !is_ws(s[0]) {
        0
    } else {
        1 + ws_prefix_len(s.drop_first())
    }
}

/// The number of trailing whitespace characters of a sequence.
pub open spec fn ws_suffix_len(s: Seq<char>) -> int
    decreases s.len(),
{
    if s.len() == 0 || !is_ws(s.last()) {
        0
    } else {
        1 + ws_suffix_len(s.drop_last())
    }
}

pub proof fn lemma_ws_prefix_len_bounds(s: Seq<char>)
    ensures
        0 <= ws_prefix_len(s) <= s.len(),
        forall|i: int| 0 <= i < ws_prefix_len(s) ==> is_ws(s[i]),
        ws_prefix_len(s) < s.len() ==> !is_ws(s[ws_prefix_len(s)]),
    decreases s.len(),
{
    if s.len() != 0 && is_ws(s[0]) {
        lemma_ws_prefix_len_bounds(s.drop_first());
        assert forall|i: int| 0 <= i < ws_prefix_len(s) implies is_ws(s[i]) by {
            if i > 0 {
                assert(s.drop_first()[i - 1] == s[i]);
            }
        }
        if ws_prefix_len(s) < s.len() {
            assert(s.drop_first()[ws_prefix_len(s) - 1] == s[ws_prefix_len(s)]);
        }
    }
}

pub proof fn lemma_ws_suffix_len_bounds(s: Seq<char>)
    ensures
        0 <= ws_suffix_len(s) <= s.len(),
        forall|i: int| s.len() - ws_suffix_len(s) <= i < s.len() ==> is_ws(s[i]),
        ws_suffix_len(s) < s.len() ==> !is_ws(s[s.len() - 1 - ws_suffix_len(s)]),
    decreases s.len(),
{
    if s.len() != 0 && is_ws(s.last()) {
        lemma_ws_suffix_len_bounds(s.drop_last());
        assert forall|i: int| s.len() - ws_suffix_len(s) <= i < s.len() implies is_ws(s[i]) by {
            if i < s.len() - 1 {
                assert(s.drop_last()[i] == s[i]);
            }
        }
        if ws_suffix_len(s) < s.len() {
            assert(s.drop_last()[s.len() - 2 - (ws_suffix_len(s) - 1)] == s[s.len() - 1
                - ws_suffix_len(s)]);
        }
    }
}

/// A sequence with leading and trailing ASCII whitespace removed.
pub open spec fn trim_seq(s: Seq<char>) -> Seq<char> {
    let a = ws_prefix_len(s);
    let b = s.len() - ws_suffix_len(s);
    if a < b {
        s.subrange(a, b)
    } else {
        Seq::empty()
    }
}

/// Remove leading and trailing ASCII whitespace.
pub fn trim_chars(v: &[char]) -> (r: Vec<char>)
    ensures
        r@ == trim_seq(v@),
{
    let n: usize = v.len();
    let mut a: usize = 0;
    while a < n && is_ws_exec(v[a])
        invariant
            a <= n,
            n == v@.len(),
            forall|i: int| 0 <= i < a ==> is_ws(v@[i]),
        decreases n - a,
    {
        a = a + 1;
    }
    let mut b: usize = n;
    while b > a && is_ws_exec(v[b - 1])
        invariant
            a <= b <= n,
            n == v@.len(),
            forall|i: int| b <= i < n ==> is_ws(v@[i]),
        decreases b,
    {
        b = b - 1;
    }
    let mut r: Vec<char> = Vec::new();
    let mut i: usize = a;
    while i < b
        invariant
            a <= i <= b <= n,
            n == v@.len(),
            r@ == v@.subrange(a as int, i as int),
        decreases b - i,
    {
        r.push(v[i]);
        i = i + 1;
        proof {
            assert(r@ =~= v@.subrange(a as int, i as int));
        }
    }
    proof {
        if a < b {
            lemma_trim_mid(v@, a as int, b as int);
        } else {
            lemma_trim_all_ws(v@);
            assert(r@ =~= Seq::<char>::empty());
        }
    }
    r
}

/// When `a` and `b` bound the non-whitespace middle of `s`, the subrange from
/// `a` to `b` is the trimmed sequence.
proof fn lemma_trim_mid(s: Seq<char>, a: int, b: int)
    requires
        0 <= a < b <= s.len(),
        forall|i: int| 0 <= i < a ==> is_ws(s[i]),
        forall|i: int| b <= i < s.len() ==> is_ws(s[i]),
        !is_ws(s[a]),
        !is_ws(s[b - 1]),
    ensures
        trim_seq(s) == s.subrange(a, b),
{
    lemma_ws_prefix_len_bounds(s);
    lemma_ws_suffix_len_bounds(s);
    assert(ws_prefix_len(s) == a) by {
        if ws_prefix_len(s) < a {
            assert(is_ws(s[ws_prefix_len(s)]));
        }
        if ws_prefix_len(s) > a {
            assert(is_ws(s[a]));
        }
    }
    assert(ws_suffix_len(s) == s.len() - b) by {
        if ws_suffix_len(s) < s.len() - b {
            assert(!is_ws(s[s.len() - 1 - ws_suffix_len(s)]));
            assert(b <= s.len() - 1 - ws_suffix_len(s) < s.len());
        }
        if ws_suffix_len(s) > s.len() - b {
            assert(is_ws(s[b - 1]));
        }
    }
}

/// A sequence that is all whitespace trims to the empty sequence.
proof fn lemma_trim_all_ws(s: Seq<char>)
    requires
        forall|i: int| 0 <= i < s.len() ==> is_ws(s[i]),
    ensures
        trim_seq(s) == Seq::<char>::empty(),
{
    lemma_ws_prefix_len_bounds(s);
    assert(ws_prefix_len(s) == s.len()) by {
        if ws_prefix_len(s) < s.len() {
            assert(is_ws(s[ws_prefix_len(s)]));
        }
    }
    lemma_ws_suffix_len_bounds(s);
}

/// Compare two character slices for equality.
pub fn chars_eq(a: &[char], b: &[char]) -> (r: bool)
    ensures
        r == (a@ == b@),
{
    if a.len() != b.len() {
        proof {
            assert(a@.len() != b@.len());
        }
        return false;
    }
    let mut i: usize = 0;
    while i < a.len()
        invariant
            i <= a@.len(),
            a@.len() == b@.len(),
            forall|j: int| 0 <= j < i ==> a@[j] == b@[j],
        decreases a@.len() - i,
    {
        if a[i] != b[i] {
            return false;
        }
        i = i + 1;
    }
    proof {
        assert(a@ =~= b@);
    }
    true
}

/// Whether a character slice equals the view of a string slice.
pub fn chars_eq_str(a: &[char], s: &str) -> (r: bool)
    ensures
        r == (a@ == s@),
{
    let sv = chars_of(s);
    chars_eq(a, sv.as_slice())
}

/// Append the characters of a string slice.
pub fn push_str(out: &mut Vec<char>, s: &str)
    ensures
        final(out)@ == old(out)@ + s@,
{
    let cs = chars_of(s);
    let mut i: usize = 0;
    while i < cs.len()
        invariant
            i <= cs@.len(),
            cs@ == s@,
            out@ == old(out)@ + s@.subrange(0, i as int),
        decreases cs@.len() - i,
    {
        out.push(cs[i]);
        i = i + 1;
        proof {
            assert(out@ =~= old(out)@ + s@.subrange(0, i as int));
        }
    }
    proof {
        assert(out@ =~= old(out)@ + s@);
    }
}

/// One decimal digit.
pub open spec fn dec_digit(n: nat) -> char {
    if n == 0 { '0' } else if n == 1 { '1' } else if n == 2 { '2' } else if n == 3 { '3' }
    else if n == 4 { '4' } else if n == 5 { '5' } else if n == 6 { '6' } else if n == 7 { '7' }
    else if n == 8 { '8' } else if n == 9 { '9' } else { '0' }
}

/// The decimal digits of a number, most significant first.
pub open spec fn dec_digits(n: nat) -> Seq<char>
    decreases n,
{
    if n < 10 {
        seq![dec_digit(n)]
    } else {
        dec_digits(n / 10).push(dec_digit(n % 10))
    }
}

/// Append the decimal digits of `n`.
pub fn push_dec(out: &mut Vec<char>, n: usize)
    ensures
        final(out)@ == old(out)@ + dec_digits(n as nat),
    decreases n,
{
    if n < 10 {
        out.push(dec_digit_exec(n));
        proof {
            assert(out@ =~= old(out)@ + dec_digits(n as nat));
        }
    } else {
        push_dec(out, n / 10);
        out.push(dec_digit_exec(n % 10));
        proof {
            assert(out@ =~= old(out)@ + dec_digits(n as nat));
        }
    }
}

/// One decimal digit.
fn dec_digit_exec(n: usize) -> (r: char)
    ensures
        r == dec_digit(n as nat),
{
    match n {
        0usize => '0', 1usize => '1', 2usize => '2', 3usize => '3', 4usize => '4',
        5usize => '5', 6usize => '6', 7usize => '7', 8usize => '8', 9usize => '9',
        _ => '0',
    }
}

/// Whether two string slices hold the same characters.
pub fn str_eq(a: &str, b: &str) -> (r: bool)
    ensures
        r == (a@ == b@),
{
    let av = chars_of(a);
    let bv = chars_of(b);
    chars_eq(av.as_slice(), bv.as_slice())
}

} // verus!
