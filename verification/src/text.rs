//! Character-level vocabulary shared by the parser and the writer: whitespace as
//! `char::is_whitespace` defines it, line terminators, leading-whitespace trimming,
//! whitespace-separated words and ASCII case-insensitive comparison, each as a spec
//! function over `Seq<char>` with an executable counterpart proved against it.
use vstd::prelude::*;
use vstd::string::StringExecFns;

verus! {

/// Unicode `White_Space`, the set `char::is_whitespace` tests for.
pub open spec fn is_ws(c: char) -> bool {
    let u = c as u32;
    ||| u == 0x20
    ||| 0x09 <= u <= 0x0d
    ||| u == 0x85
    ||| u == 0xa0
    ||| u == 0x1680
    ||| 0x2000 <= u <= 0x200a
    ||| u == 0x2028
    ||| u == 0x2029
    ||| u == 0x202f
    ||| u == 0x205f
    ||| u == 0x3000
}

pub fn is_whitespace(c: char) -> (b: bool)
    ensures
        b == is_ws(c),
{
    let u = c as u32;
    u == 0x20 || (0x09 <= u && u <= 0x0d) || u == 0x85 || u == 0xa0 || u == 0x1680 || (0x2000
        <= u && u <= 0x200a) || u == 0x2028 || u == 0x2029 || u == 0x202f || u == 0x205f || u
        == 0x3000
}

/// Every character of `s` is whitespace (so `s.trim()` is empty).
pub open spec fn all_ws(s: Seq<char>) -> bool {
    forall|i: int| 0 <= i < s.len() ==> is_ws(#[trigger] s[i])
}

/// `s` without its trailing `"\n"` or `"\r\n"`, if it has one.
pub open spec fn strip_term(s: Seq<char>) -> Seq<char> {
    if s.len() > 0 && s.last() == '\n' {
        let r = s.drop_last();
        if r.len() > 0 && r.last() == '\r' {
            r.drop_last()
        } else {
            r
        }
    } else {
        s
    }
}

/// Number of leading whitespace characters.
pub open spec fn ws_len(s: Seq<char>) -> nat
    decreases s.len(),
{
    if s.len() > 0 && is_ws(s[0]) {
        1 + ws_len(s.drop_first())
    } else {
        0
    }
}

/// `s.trim_start()`.
pub open spec fn trim_start(s: Seq<char>) -> Seq<char> {
    s.skip(ws_len(s) as int)
}

/// Length of the run of non-whitespace characters that starts `s`.
pub open spec fn token_len(s: Seq<char>) -> nat
    decreases s.len(),
{
    if s.len() > 0 && !is_ws(s[0]) {
        1 + token_len(s.drop_first())
    } else {
        0
    }
}

/// `s.split_whitespace()`.
pub open spec fn words(s: Seq<char>) -> Seq<Seq<char>>
    decreases s.len(),
{
    if s.len() == 0 {
        seq![]
    } else if is_ws(s[0]) {
        words(s.drop_first())
    } else {
        proof {
            lemma_token_len_bound(s);
        }
        seq![s.take(token_len(s) as int)] + words(s.skip(token_len(s) as int))
    }
}

/// `c.to_ascii_lowercase()` as a code point.
pub open spec fn lower_code(c: char) -> u32 {
    if 0x41 <= (c as u32) <= 0x5a {
        (c as u32 + 0x20) as u32
    } else {
        c as u32
    }
}

/// `a.eq_ignore_ascii_case(b)`.
pub open spec fn eq_ic(a: Seq<char>, b: Seq<char>) -> bool {
    &&& a.len() == b.len()
    &&& forall|i: int| 0 <= i < a.len() ==> lower_code(#[trigger] a[i]) == lower_code(b[i])
}

pub proof fn lemma_token_len_bound(s: Seq<char>)
    ensures
        token_len(s) <= s.len(),
        s.len() > 0 && !is_ws(s[0]) ==> token_len(s) >= 1,
    decreases s.len(),
{
    if s.len() > 0 && !is_ws(s[0]) {
        lemma_token_len_bound(s.drop_first());
    }
}

/// `ws_len` is the first index that is not whitespace.
pub proof fn lemma_ws_len_is(s: Seq<char>, k: int)
    requires
        0 <= k <= s.len(),
        forall|i: int| 0 <= i < k ==> is_ws(#[trigger] s[i]),
        k == s.len() || !is_ws(s[k]),
    ensures
        ws_len(s) == k,
    decreases k,
{
    if k > 0 {
        let t = s.drop_first();
        assert forall|i: int| 0 <= i < k - 1 implies is_ws(#[trigger] t[i]) by {
            assert(t[i] == s[i + 1]);
        }
        if k < s.len() {
            assert(t[k - 1] == s[k]);
        }
        lemma_ws_len_is(t, k - 1);
    }
}

/// `token_len` is the first index that is whitespace.
pub proof fn lemma_token_len_is(s: Seq<char>, k: int)
    requires
        0 <= k <= s.len(),
        forall|i: int| 0 <= i < k ==> !is_ws(#[trigger] s[i]),
        k == s.len() || is_ws(s[k]),
    ensures
        token_len(s) == k,
    decreases k,
{
    if k > 0 {
        let t = s.drop_first();
        assert forall|i: int| 0 <= i < k - 1 implies !is_ws(#[trigger] t[i]) by {
            assert(t[i] == s[i + 1]);
        }
        if k < s.len() {
            assert(t[k - 1] == s[k]);
        }
        lemma_token_len_is(t, k - 1);
    }
}

pub proof fn lemma_ws_len_facts(s: Seq<char>)
    ensures
        ws_len(s) <= s.len(),
        forall|i: int| 0 <= i < ws_len(s) ==> is_ws(#[trigger] s[i]),
        ws_len(s) < s.len() ==> !is_ws(s[ws_len(s) as int]),
    decreases s.len(),
{
    if s.len() > 0 && is_ws(s[0]) {
        let t = s.drop_first();
        lemma_ws_len_facts(t);
        assert forall|i: int| 0 <= i < ws_len(s) implies is_ws(#[trigger] s[i]) by {
            if i > 0 {
                assert(s[i] == t[i - 1]);
            }
        }
        if ws_len(s) < s.len() {
            assert(s[ws_len(s) as int] == t[ws_len(t) as int]);
        }
    }
}

pub proof fn lemma_token_len_facts(s: Seq<char>)
    ensures
        token_len(s) <= s.len(),
        forall|i: int| 0 <= i < token_len(s) ==> !is_ws(#[trigger] s[i]),
        token_len(s) < s.len() ==> is_ws(s[token_len(s) as int]),
    decreases s.len(),
{
    if s.len() > 0 && !is_ws(s[0]) {
        let t = s.drop_first();
        lemma_token_len_facts(t);
        assert forall|i: int| 0 <= i < token_len(s) implies !is_ws(#[trigger] s[i]) by {
            if i > 0 {
                assert(s[i] == t[i - 1]);
            }
        }
        if token_len(s) < s.len() {
            assert(s[token_len(s) as int] == t[token_len(t) as int]);
        }
    }
}

/// The characters of `s`, in order.
pub fn chars_of(s: &str) -> (v: Vec<char>)
    ensures
        v@ == s@,
{
    let mut v: Vec<char> = Vec::new();
    for c in it: s.chars()
        invariant
            v@ == it.seq().take(it.index() as int),
    {
        v.push(c);
    }
    v
}

/// Trusted: std's `String::push`, which its documentation says appends the character `c` to
/// the end of `s`. The contract states exactly that and is taken without proof.
#[verifier::external_body]
fn push_char(s: &mut String, c: char)
    ensures
        final(s)@ == old(s)@.push(c),
{
    s.push(c);
}

/// A `String` holding `v[lo..hi]`.
pub fn string_of_range(v: &[char], lo: usize, hi: usize) -> (s: String)
    requires
        lo <= hi <= v@.len(),
    ensures
        s@ == v@.subrange(lo as int, hi as int),
{
    let mut s = String::new();
    let mut i: usize = lo;
    while i < hi
        invariant
            lo <= i <= hi <= v@.len(),
            s@ == v@.subrange(lo as int, i as int),
        decreases hi - i,
    {
        push_char(&mut s, v[i]);
        i += 1;
        assert(s@ == v@.subrange(lo as int, i as int));
    }
    s
}

/// A `String` holding `v`.
pub fn string_of(v: &[char]) -> (s: String)
    ensures
        s@ == v@,
{
    let s = string_of_range(v, 0, v.len());
    assert(v@.subrange(0, v@.len() as int) == v@);
    s
}

/// The concatenation of `a` and `b` as a new `String`.
pub fn concat_str(a: &str, b: &str) -> (s: String)
    ensures
        s@ == a@ + b@,
{
    let mut s = String::from_str(a);
    s.append(b);
    s
}

/// `s.ends_with('\n')`.
pub fn ends_with_newline(s: &str) -> (b: bool)
    ensures
        b == (s@.len() > 0 && s@.last() == '\n'),
{
    let v = chars_of(s);
    v.len() > 0 && v[v.len() - 1] == '\n'
}

/// `strip_terminator(s).len()` counted in characters, for `v == s`.
pub fn content_len(v: &[char]) -> (n: usize)
    ensures
        n as int == strip_term(v@).len(),
        v@.subrange(0, n as int) == strip_term(v@),
{
    let len = v.len();
    if len > 0 && v[len - 1] == '\n' {
        if len > 1 && v[len - 2] == '\r' {
            assert(v@.subrange(0, len - 2) == v@.drop_last().drop_last());
            len - 2
        } else {
            assert(v@.subrange(0, len - 1) == v@.drop_last());
            len - 1
        }
    } else {
        assert(v@.subrange(0, len as int) == v@);
        len
    }
}

/// Index of the first non-whitespace character of `v[from..]`, as an index into `v`.
pub fn skip_ws(v: &[char], from: usize) -> (k: usize)
    requires
        from <= v@.len(),
    ensures
        from <= k <= v@.len(),
        k - from == ws_len(v@.skip(from as int)),
{
    let mut k = from;
    while k < v.len() && is_whitespace(v[k])
        invariant
            from <= k <= v@.len(),
            forall|i: int| from <= i < k ==> is_ws(#[trigger] v@[i]),
        decreases v.len() - k,
    {
        k += 1;
    }
    proof {
        let t = v@.skip(from as int);
        assert forall|i: int| 0 <= i < k - from implies is_ws(#[trigger] t[i]) by {
            assert(t[i] == v@[from + i]);
        }
        if k < v.len() {
            assert(t[k - from] == v@[k as int]);
        }
        lemma_ws_len_is(t, k - from);
    }
    k
}

/// Index just past the run of non-whitespace characters that starts at `from`.
pub fn skip_token(v: &[char], from: usize) -> (k: usize)
    requires
        from <= v@.len(),
    ensures
        from <= k <= v@.len(),
        k - from == token_len(v@.skip(from as int)),
{
    let mut k = from;
    while k < v.len() && !is_whitespace(v[k])
        invariant
            from <= k <= v@.len(),
            forall|i: int| from <= i < k ==> !is_ws(#[trigger] v@[i]),
        decreases v.len() - k,
    {
        k += 1;
    }
    proof {
        let t = v@.skip(from as int);
        assert forall|i: int| 0 <= i < k - from implies !is_ws(#[trigger] t[i]) by {
            assert(t[i] == v@[from + i]);
        }
        if k < v.len() {
            assert(t[k - from] == v@[k as int]);
        }
        lemma_token_len_is(t, k - from);
    }
    k
}

/// Whether `v[lo..hi]` is all whitespace.
pub fn range_all_ws(v: &[char], lo: usize, hi: usize) -> (b: bool)
    requires
        lo <= hi <= v@.len(),
    ensures
        b == all_ws(v@.subrange(lo as int, hi as int)),
{
    let mut i = lo;
    while i < hi
        invariant
            lo <= i <= hi <= v@.len(),
            forall|j: int| lo <= j < i ==> is_ws(#[trigger] v@[j]),
        decreases hi - i,
    {
        if !is_whitespace(v[i]) {
            assert(v@.subrange(lo as int, hi as int)[i - lo] == v@[i as int]);
            return false;
        }
        i += 1;
    }
    assert forall|j: int| 0 <= j < hi - lo implies is_ws(#[trigger] v@.subrange(lo as int, hi as int)[j]) by {
        assert(v@.subrange(lo as int, hi as int)[j] == v@[lo + j]);
    }
    true
}

/// `s.split_whitespace()` for `s == v[from..]`.
pub fn split_words(v: &[char], from: usize) -> (out: Vec<String>)
    requires
        from <= v@.len(),
    ensures
        out@.map_values(|w: String| w@) == words(v@.skip(from as int)),
{
    let mut out: Vec<String> = Vec::new();
    let mut i = from;
    while i < v.len()
        invariant
            from <= i <= v@.len(),
            out@.map_values(|w: String| w@) + words(v@.skip(i as int)) == words(
                v@.skip(from as int),
            ),
        decreases v.len() - i,
    {
        let ghost rest = v@.skip(i as int);
        if is_whitespace(v[i]) {
            assert(rest.drop_first() == v@.skip(i + 1));
            i += 1;
        } else {
            let j = skip_token(v, i);
            let w = string_of_range(v, i, j);
            let ghost before = out@.map_values(|w: String| w@);
            out.push(w);
            proof {
                lemma_token_len_bound(rest);
                assert(rest.take(token_len(rest) as int) == v@.subrange(i as int, j as int));
                assert(rest.skip(token_len(rest) as int) == v@.skip(j as int));
                assert(out@.map_values(|w: String| w@) == before.push(v@.subrange(i as int, j as int)));
                assert(words(rest) == seq![v@.subrange(i as int, j as int)] + words(v@.skip(j as int)));
                assert(before + words(rest) == out@.map_values(|w: String| w@) + words(v@.skip(j as int)));
            }
            i = j;
        }
    }
    assert(words(v@.skip(i as int)) == Seq::<Seq<char>>::empty());
    out
}

pub fn lower_char_code(c: char) -> (u: u32)
    ensures
        u == lower_code(c),
{
    let u = c as u32;
    if 0x41 <= u && u <= 0x5a {
        u + 0x20
    } else {
        u
    }
}

/// `a[lo..hi].eq_ignore_ascii_case(b)`.
pub fn range_eq_ic(a: &[char], lo: usize, hi: usize, b: &[char]) -> (r: bool)
    requires
        lo <= hi <= a@.len(),
    ensures
        r == eq_ic(a@.subrange(lo as int, hi as int), b@),
{
    let s = Ghost(a@.subrange(lo as int, hi as int));
    if hi - lo != b.len() {
        return false;
    }
    let mut i: usize = 0;
    while i < b.len()
        invariant
            hi - lo == b@.len(),
            lo <= hi <= a@.len(),
            s@ == a@.subrange(lo as int, hi as int),
            i <= b@.len(),
            forall|k: int| 0 <= k < i ==> lower_code(#[trigger] s@[k]) == lower_code(b@[k]),
        decreases b.len() - i,
    {
        assert(s@[i as int] == a@[lo + i]);
        if lower_char_code(a[lo + i]) != lower_char_code(b[i]) {
            return false;
        }
        i += 1;
    }
    true
}

/// Whether two strings hold the same characters.
pub fn same_text(a: &str, b: &str) -> (r: bool)
    ensures
        r == (a@ == b@),
{
    let x = chars_of(a);
    let y = chars_of(b);
    if x.len() != y.len() {
        return false;
    }
    let mut i: usize = 0;
    while i < x.len()
        invariant
            x@ == a@,
            y@ == b@,
            x@.len() == y@.len(),
            i <= x@.len(),
            forall|k: int| 0 <= k < i ==> x@[k] == y@[k],
        decreases x.len() - i,
    {
        if x[i] != y[i] {
            assert(x@[i as int] != y@[i as int]);
            return false;
        }
        i += 1;
    }
    assert(x@ == y@);
    true
}

} // verus!
