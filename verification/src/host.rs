//! Reading an [`SshHost`] out of a managed block: the value of the first `Known` line of each
//! directive, the port as a decimal `u16`, and the remaining lines joined as the free-form
//! "advanced options" text.
use vstd::prelude::*;
use vstd::string::StringExecFns;

use crate::model::{self, BlockLine, KnownDirective, ManagedBlock, SshHost};
use crate::parser::{content_chars, directive_of};
use crate::text::{self, chars_of, skip_token, skip_ws, string_of, string_of_range};

verus! {

// ---------------------------------------------------------------------------------------------
// Values
// ---------------------------------------------------------------------------------------------
/// Number of trailing whitespace characters.
pub open spec fn trailing_ws_len(s: Seq<char>) -> nat
    decreases s.len(),
{
    if s.len() > 0 && text::is_ws(s.last()) {
        1 + trailing_ws_len(s.drop_last())
    } else {
        0
    }
}

/// `s.trim()`.
pub open spec fn trim(s: Seq<char>) -> Seq<char> {
    let t = text::trim_start(s);
    t.take(t.len() - trailing_ws_len(t))
}

/// The value a directive line sets: what follows its keyword, trimmed.
pub open spec fn line_value(l: Seq<char>) -> Seq<char> {
    let c = text::strip_term(l);
    let t = text::trim_start(c);
    trim(t.skip(text::token_len(t) as int))
}

pub proof fn lemma_trailing_ws_len_is(s: Seq<char>, k: int)
    requires
        0 <= k <= s.len(),
        forall|i: int| s.len() - k <= i < s.len() ==> text::is_ws(#[trigger] s[i]),
        k == s.len() || !text::is_ws(s[s.len() - k - 1]),
    ensures
        trailing_ws_len(s) == k,
    decreases k,
{
    if k > 0 {
        let t = s.drop_last();
        assert forall|i: int| t.len() - (k - 1) <= i < t.len() implies text::is_ws(#[trigger] t[i]) by {
            assert(t[i] == s[i]);
        }
        if k < s.len() {
            assert(t[t.len() - (k - 1) - 1] == s[s.len() - k - 1]);
        }
        lemma_trailing_ws_len_is(t, k - 1);
    }
}

/// `v[lo..]`, trimmed, as a `String`.
fn trimmed_from(v: &[char], lo: usize) -> (s: String)
    requires
        lo <= v@.len(),
    ensures
        s@ == trim(v@.skip(lo as int)),
{
    let a = skip_ws(v, lo);
    let mut b = v.len();
    while b > a && text::is_whitespace(v[b - 1])
        invariant
            lo <= a <= b <= v@.len(),
            forall|i: int| b <= i < v@.len() ==> text::is_ws(#[trigger] v@[i]),
        decreases b,
    {
        b -= 1;
    }
    proof {
        let t = text::trim_start(v@.skip(lo as int));
        assert(t == v@.skip(a as int));
        let k = v@.len() - b;
        assert forall|i: int| t.len() - k <= i < t.len() implies text::is_ws(#[trigger] t[i]) by {
            assert(t[i] == v@[a + i]);
        }
        if k < t.len() {
            assert(t[t.len() - k - 1] == v@[b - 1]);
        }
        lemma_trailing_ws_len_is(t, k);
        assert(t.take(t.len() - k) == v@.subrange(a as int, b as int));
    }
    string_of_range(v, a, b)
}

/// The value a directive line sets.
pub fn value_of(line: &str) -> (s: String)
    ensures
        s@ == line_value(line@),
{
    let c = content_chars(line);
    let s = skip_ws(&c, 0);
    assert(c@.skip(0) == c@);
    let e = skip_token(&c, s);
    assert(c@.skip(s as int).skip(e - s) == c@.skip(e as int));
    trimmed_from(&c, e)
}

// ---------------------------------------------------------------------------------------------
// Ports
// ---------------------------------------------------------------------------------------------
pub open spec fn is_digit(c: char) -> bool {
    0x30 <= (c as u32) <= 0x39
}

/// The number a string of decimal digits spells.
pub open spec fn digits_value(s: Seq<char>) -> nat
    decreases s.len(),
{
    if s.len() == 0 {
        0
    } else {
        digits_value(s.drop_last()) * 10 + ((s.last() as u32) - 0x30) as nat
    }
}

/// `s.parse::<u16>()`: an optional `+`, then one or more decimal digits, at most 65535.
pub open spec fn parse_u16(s: Seq<char>) -> Option<u16> {
    let d = unsigned_digits(s);
    if d.len() > 0 && (forall|i: int| 0 <= i < d.len() ==> is_digit(#[trigger] d[i]))
        && digits_value(d) <= 65535 {
        Some(digits_value(d) as u16)
    } else {
        None
    }
}

/// The character of a decimal digit.
pub open spec fn digit_char(d: nat) -> char {
    if d == 0 {
        '0'
    } else if d == 1 {
        '1'
    } else if d == 2 {
        '2'
    } else if d == 3 {
        '3'
    } else if d == 4 {
        '4'
    } else if d == 5 {
        '5'
    } else if d == 6 {
        '6'
    } else if d == 7 {
        '7'
    } else if d == 8 {
        '8'
    } else {
        '9'
    }
}

fn digit(d: u64) -> (c: char)
    requires
        d < 10,
    ensures
        c == digit_char(d as nat),
{
    if d == 0 {
        '0'
    } else if d == 1 {
        '1'
    } else if d == 2 {
        '2'
    } else if d == 3 {
        '3'
    } else if d == 4 {
        '4'
    } else if d == 5 {
        '5'
    } else if d == 6 {
        '6'
    } else if d == 7 {
        '7'
    } else if d == 8 {
        '8'
    } else {
        '9'
    }
}

/// The decimal spelling of `n`, as `n.to_string()` writes it.
pub open spec fn decimal(n: nat) -> Seq<char>
    decreases n,
{
    if n < 10 {
        seq![digit_char(n)]
    } else {
        decimal(n / 10).push(digit_char(n % 10))
    }
}

pub proof fn lemma_digit_char(d: nat)
    requires
        d < 10,
    ensures
        is_digit(digit_char(d)),
        (digit_char(d) as u32) - 0x30 == d,
        digit_char(d) != '+',
{
}

pub proof fn lemma_decimal_digits(n: nat)
    ensures
        decimal(n).len() > 0,
        forall|i: int| 0 <= i < decimal(n).len() ==> is_digit(#[trigger] decimal(n)[i]),
        decimal(n)[0] != '+',
        digits_value(decimal(n)) == n,
    decreases n,
{
    if n < 10 {
        lemma_digit_char(n);
        assert(decimal(n).drop_last() == Seq::<char>::empty());
        assert(decimal(n).last() == digit_char(n));
        assert(digits_value(decimal(n)) == digits_value(Seq::<char>::empty()) * 10 + ((
        digit_char(n) as u32) - 0x30) as nat);
    } else {
        lemma_decimal_digits(n / 10);
        lemma_digit_char(n % 10);
        let p = decimal(n / 10);
        let c = digit_char(n % 10);
        assert(decimal(n) == p.push(c));
        assert forall|i: int| 0 <= i < decimal(n).len() implies is_digit(#[trigger] decimal(n)[i]) by {
            if i < p.len() {
                assert(decimal(n)[i] == p[i]);
            }
        }
        assert(decimal(n).drop_last() == p);
        assert(decimal(n)[0] == p[0]);
        assert(decimal(n).last() == c);
        assert(digits_value(decimal(n)) == digits_value(p) * 10 + ((c as u32) - 0x30) as nat);
        assert((n / 10) * 10 + n % 10 == n) by (nonlinear_arith);
    }
}

/// Parsing the decimal spelling of a port gives the port back.
pub proof fn lemma_parse_decimal(p: u16)
    ensures
        parse_u16(decimal(p as nat)) == Some(p),
{
    lemma_decimal_digits(p as nat);
}

/// The digits `parse_u16` reads: `s` without a leading `+`.
pub open spec fn unsigned_digits(s: Seq<char>) -> Seq<char> {
    if s.len() > 0 && s[0] == '+' {
        s.drop_first()
    } else {
        s
    }
}

proof fn lemma_parse_rejects(s: Seq<char>, k: int)
    requires
        0 <= k < unsigned_digits(s).len(),
        !is_digit(unsigned_digits(s)[k]) || (forall|i: int|
            0 <= i < k ==> is_digit(#[trigger] unsigned_digits(s)[i])) && digits_value(
            unsigned_digits(s).take(k + 1),
        ) > 65535 && is_digit(unsigned_digits(s)[k]),
    ensures
        parse_u16(s) is None,
{
    let d = unsigned_digits(s);
    if forall|i: int| 0 <= i < d.len() ==> is_digit(#[trigger] d[i]) {
        lemma_digits_value_prefix_le(d, k + 1);
    }
}

/// `s.parse::<u16>().ok()`.
pub fn parse_port(s: &str) -> (p: Option<u16>)
    ensures
        p == parse_u16(s@),
{
    let v = chars_of(s);
    let start: usize = if v.len() > 0 && v[0] == '+' {
        1
    } else {
        0
    };
    let ghost d = v@.skip(start as int);
    assert(start == 1 ==> d == v@.drop_first());
    assert(start == 0 ==> d == v@);
    assert(d == unsigned_digits(s@));
    if start == v.len() {
        assert(d.len() == 0);
        return None;
    }
    let mut acc: u32 = 0;
    let mut i = start;
    while i < v.len()
        invariant
            start <= i <= v@.len(),
            d == v@.skip(start as int),
            d == unsigned_digits(s@),
            forall|k: int| 0 <= k < i - start ==> is_digit(#[trigger] d[k]),
            acc as nat == digits_value(d.take(i - start)),
            acc <= 65535,
        decreases v.len() - i,
    {
        let c = v[i];
        let u = c as u32;
        assert(d[i - start] == c);
        if u < 0x30 || u > 0x39 {
            proof {
                lemma_parse_rejects(s@, i - start);
            }
            return None;
        }
        assert(d.take(i - start + 1).drop_last() == d.take(i - start));
        let next = acc * 10 + (u - 0x30);
        if next > 65535 {
            proof {
                lemma_parse_rejects(s@, i - start);
            }
            return None;
        }
        acc = next;
        i += 1;
    }
    assert(d.take(i - start) == d);
    assert(d.len() > 0);
    Some(acc as u16)
}

/// Extending a digit string never lowers its value.
pub proof fn lemma_digits_value_prefix_le(d: Seq<char>, k: int)
    requires
        0 <= k <= d.len(),
        forall|i: int| 0 <= i < d.len() ==> is_digit(#[trigger] d[i]),
    ensures
        digits_value(d.take(k)) <= digits_value(d),
    decreases d.len() - k,
{
    if k < d.len() {
        lemma_digits_value_prefix_le(d, k + 1);
        assert(d.take(k + 1).drop_last() == d.take(k));
    } else {
        assert(d.take(k) == d);
    }
}

/// `n.to_string()`.
pub fn decimal_string(n: u64) -> (s: String)
    ensures
        s@ == decimal(n as nat),
    decreases n,
{
    let d = digit(n % 10);
    if n < 10 {
        let v = vec![d];
        assert(v@ == decimal(n as nat));
        string_of(&v)
    } else {
        let mut s = decimal_string(n / 10);
        let v = vec![d];
        s.append(string_of(&v).as_str());
        s
    }
}

// ---------------------------------------------------------------------------------------------
// Blocks
// ---------------------------------------------------------------------------------------------
/// Line `i` is the first `Known` line for `d`.
pub open spec fn is_first_known(lines: Seq<BlockLine>, d: KnownDirective, i: int) -> bool {
    &&& 0 <= i < lines.len()
    &&& lines[i] matches BlockLine::Known { directive, .. } && directive == d
    &&& forall|j: int| 0 <= j < i ==> !(#[trigger] lines[j] matches BlockLine::Known { directive, .. } && directive == d)
}

pub open spec fn has_known(lines: Seq<BlockLine>, d: KnownDirective) -> bool {
    exists|i: int| is_first_known(lines, d, i)
}

/// The value of the first `Known` line for `d`, if there is one.
pub open spec fn known_value(lines: Seq<BlockLine>, d: KnownDirective) -> Option<Seq<char>> {
    if has_known(lines, d) {
        Some(line_value(lines[choose|i: int| is_first_known(lines, d, i)].raw().0@))
    } else {
        None
    }
}

pub proof fn lemma_first_known_unique(lines: Seq<BlockLine>, d: KnownDirective, i: int, j: int)
    requires
        is_first_known(lines, d, i),
        is_first_known(lines, d, j),
    ensures
        i == j,
{
    if i < j {
        assert(lines[i] matches BlockLine::Known { directive, .. } && directive == d);
    }
    if j < i {
        assert(lines[j] matches BlockLine::Known { directive, .. } && directive == d);
    }
}

pub proof fn lemma_known_value_at(lines: Seq<BlockLine>, d: KnownDirective, i: int)
    requires
        is_first_known(lines, d, i),
    ensures
        known_value(lines, d) == Some(line_value(lines[i].raw().0@)),
{
    let c = choose|k: int| is_first_known(lines, d, k);
    lemma_first_known_unique(lines, d, i, c);
}

/// The text of every `Other` line, in order.
pub open spec fn other_raws(lines: Seq<BlockLine>) -> Seq<Seq<char>>
    decreases lines.len(),
{
    if lines.len() == 0 {
        seq![]
    } else {
        let r = other_raws(lines.drop_last());
        if lines.last() is Other {
            r.push(lines.last().raw().0@)
        } else {
            r
        }
    }
}

/// The content of every `Other` line, in order.
pub open spec fn other_texts(lines: Seq<BlockLine>) -> Seq<Seq<char>> {
    other_raws(lines).map_values(|l: Seq<char>| text::strip_term(l))
}

pub proof fn lemma_other_raws_take_succ(lines: Seq<BlockLine>, q: int)
    requires
        0 <= q < lines.len(),
    ensures
        other_raws(lines.take(q + 1)) == if lines[q] is Other {
            other_raws(lines.take(q)).push(lines[q].raw().0@)
        } else {
            other_raws(lines.take(q))
        },
{
    assert(lines.take(q + 1).drop_last() == lines.take(q));
}

/// `parts.join("\n")`.
pub open spec fn join_lines(parts: Seq<Seq<char>>) -> Seq<char>
    decreases parts.len(),
{
    if parts.len() == 0 {
        seq![]
    } else if parts.len() == 1 {
        parts[0]
    } else {
        join_lines(parts.drop_last()) + seq!['\n'] + parts.last()
    }
}

/// `s.split('\n')`: the pieces between newlines (at least one, possibly empty).
pub open spec fn split_nl(s: Seq<char>) -> Seq<Seq<char>>
    decreases s.len(),
{
    if s.len() == 0 {
        seq![seq![]]
    } else {
        let r = split_nl(s.drop_last());
        if s.last() == '\n' {
            r.push(seq![])
        } else {
            r.update(r.len() - 1, r.last().push(s.last()))
        }
    }
}

/// The lines of an advanced-options text: none for an empty text.
pub open spec fn extra_lines(e: Seq<char>) -> Seq<Seq<char>> {
    if e.len() == 0 {
        seq![]
    } else {
        split_nl(e)
    }
}

pub proof fn lemma_split_nl(s: Seq<char>)
    ensures
        split_nl(s).len() >= 1,
        join_lines(split_nl(s)) == s,
        forall|k: int| 0 <= k < split_nl(s).len() ==> !(#[trigger] split_nl(s)[k]).contains('\n'),
    decreases s.len(),
{
    if s.len() > 0 {
        let p = s.drop_last();
        lemma_split_nl(p);
        let r = split_nl(p);
        assert(p.push(s.last()) == s);
        if s.last() == '\n' {
            let q = r.push(seq![]);
            assert(q.drop_last() == r);
            assert(join_lines(q) == join_lines(r) + seq!['\n'] + Seq::<char>::empty());
            assert forall|k: int| 0 <= k < q.len() implies !(#[trigger] q[k]).contains('\n') by {
                if k < r.len() {
                    assert(q[k] == r[k]);
                } else {
                    assert(q[k] == Seq::<char>::empty());
                }
            }
        } else {
            let q = r.update(r.len() - 1, r.last().push(s.last()));
            if r.len() >= 2 {
                assert(q.drop_last() == r.drop_last());
                assert(join_lines(r) == join_lines(r.drop_last()) + seq!['\n'] + r.last());
            }
            assert(join_lines(q) == join_lines(r).push(s.last()));
            assert forall|k: int| 0 <= k < q.len() implies !(#[trigger] q[k]).contains('\n') by {
                if k < r.len() - 1 {
                    assert(q[k] == r[k]);
                } else {
                    assert(!r[k].contains('\n'));
                    if q[k].contains('\n') {
                        let j = choose|j: int| 0 <= j < q[k].len() && q[k][j] == '\n';
                        if j < r[k].len() {
                            assert(r[k][j] == '\n');
                        }
                    }
                }
            }
        }
    }
}

/// The lines of an advanced-options text: `vec![]` when empty, else `text.split('\n')`.
pub fn split_extra(extra: &str) -> (parts: Vec<String>)
    ensures
        parts@.map_values(|p: String| p@) == extra_lines(extra@),
{
    let v = chars_of(extra);
    let mut parts: Vec<String> = Vec::new();
    if v.len() == 0 {
        return parts;
    }
    let mut start: usize = 0;
    let mut i: usize = 0;
    assert(v@.subrange(0, 0) =~= Seq::<char>::empty());
    assert(v@.take(0) =~= Seq::<char>::empty());
    assert(parts@.map_values(|p: String| p@).push(v@.subrange(0, 0)) =~= split_nl(v@.take(0)));
    while i < v.len()
        invariant
            v@ == extra@,
            start <= i <= v@.len(),
            parts@.map_values(|p: String| p@).push(v@.subrange(start as int, i as int)) == split_nl(
                v@.take(i as int),
            ),
        decreases v.len() - i,
    {
        let ghost pv = parts@.map_values(|p: String| p@);
        assert(v@.take(i + 1).drop_last() == v@.take(i as int));
        assert(v@.take(i + 1).last() == v@[i as int]);
        if v[i] == '\n' {
            let piece = string_of_range(&v, start, i);
            parts.push(piece);
            assert(parts@.map_values(|p: String| p@) == pv.push(piece@));
            assert(v@.subrange(i + 1, i + 1) == Seq::<char>::empty());
            start = i + 1;
        } else {
            assert(v@.subrange(start as int, i + 1) == v@.subrange(start as int, i as int).push(v@[i as int]));
            assert(pv.push(v@.subrange(start as int, i + 1)) == pv.push(v@.subrange(start as int, i as int)).update(
                pv.len() as int,
                v@.subrange(start as int, i as int).push(v@[i as int]),
            ));
        }
        i += 1;
    }
    let piece = string_of_range(&v, start, v.len());
    parts.push(piece);
    assert(v@.take(v@.len() as int) == v@);
    parts
}

/// `parts.join("\n")`.
pub fn join_with_newlines(parts: &[String]) -> (s: String)
    ensures
        s@ == join_lines(parts@.map_values(|p: String| p@)),
{
    let ghost pv = parts@.map_values(|p: String| p@);
    let mut s = String::new();
    let mut i: usize = 0;
    let nl = vec!['\n'];
    let nls = string_of(&nl);
    while i < parts.len()
        invariant
            pv == parts@.map_values(|p: String| p@),
            i <= parts@.len(),
            nls@ == seq!['\n'],
            s@ == join_lines(pv.take(i as int)),
        decreases parts.len() - i,
    {
        assert(pv.take(i + 1).drop_last() == pv.take(i as int));
        assert(pv.take(i + 1).last() == parts@[i as int]@);
        if i > 0 {
            s.append(nls.as_str());
        } else {
            assert(join_lines(pv.take(i as int)) == Seq::<char>::empty());
        }
        s.append(parts[i].as_str());
        i += 1;
    }
    assert(pv.take(i as int) == pv);
    s
}

pub open spec fn opt_view(o: Option<String>) -> Option<Seq<char>> {
    match o {
        Some(s) => Some(s@),
        None => None,
    }
}

/// The port a `Port` value names, if it parses.
pub open spec fn port_of(v: Option<Seq<char>>) -> Option<u16> {
    match v {
        Some(s) => parse_u16(s),
        None => None,
    }
}

/// The host a managed block describes.
pub open spec fn host_describes(h: SshHost, b: ManagedBlock) -> bool {
    &&& h.alias@ == b.alias@
    &&& opt_view(h.host_name) == known_value(b.lines@, KnownDirective::HostName)
    &&& opt_view(h.user) == known_value(b.lines@, KnownDirective::User)
    &&& h.port == port_of(known_value(b.lines@, KnownDirective::Port))
    &&& opt_view(h.identity_file) == known_value(b.lines@, KnownDirective::IdentityFile)
    &&& opt_view(h.proxy_jump) == known_value(b.lines@, KnownDirective::ProxyJump)
    &&& h.extra@ == join_lines(other_texts(b.lines@))
    &&& !h.read_only
}

/// Index of the first `Known` line for `directive`.
pub fn find_known_index(block: &ManagedBlock, directive: KnownDirective) -> (r: Option<usize>)
    ensures
        match r {
            Some(i) => is_first_known(block.lines@, directive, i as int),
            None => !has_known(block.lines@, directive),
        },
{
    let mut i: usize = 0;
    while i < block.lines.len()
        invariant
            i <= block.lines@.len(),
            forall|j: int| 0 <= j < i ==> !(#[trigger] block.lines@[j] matches BlockLine::Known { directive: d, .. } && d == directive),
        decreases block.lines.len() - i,
    {
        match &block.lines[i] {
            BlockLine::Known { directive: d, .. } => {
                if *d == directive {
                    return Some(i);
                }
            },
            BlockLine::Other(_) => {},
        }
        i += 1;
    }
    None
}

fn known_value_of(block: &ManagedBlock, directive: KnownDirective) -> (v: Option<String>)
    ensures
        opt_view(v) == known_value(block.lines@, directive),
{
    match find_known_index(block, directive) {
        Some(i) => {
            proof {
                lemma_known_value_at(block.lines@, directive, i as int);
            }
            Some(value_of(block.lines[i].raw_line().0.as_str()))
        },
        None => None,
    }
}

/// The contents of the `Other` lines, joined by `\n`.
pub fn extra_text(block: &ManagedBlock) -> (s: String)
    ensures
        s@ == join_lines(other_texts(block.lines@)),
{
    let mut s = String::new();
    let mut count: usize = 0;
    let mut i: usize = 0;
    while i < block.lines.len()
        invariant
            i <= block.lines@.len(),
            count == other_texts(block.lines@.take(i as int)).len(),
            count <= i,
            s@ == join_lines(other_texts(block.lines@.take(i as int))),
        decreases block.lines.len() - i,
    {
        let ghost before = other_texts(block.lines@.take(i as int));
        proof {
            lemma_other_raws_take_succ(block.lines@, i as int);
        }
        match &block.lines[i] {
            BlockLine::Other(line) => {
                let content = crate::parser::strip_terminator(line.0.as_str());
                if count > 0 {
                    let nl = vec!['\n'];
                    s.append(string_of(&nl).as_str());
                }
                s.append(content.as_str());
                let ghost after = before.push(content@);
                assert(other_texts(block.lines@.take(i + 1)) == after);
                assert(after.drop_last() == before);
                count += 1;
            },
            BlockLine::Known { .. } => {},
        }
        i += 1;
    }
    assert(block.lines@.take(i as int) == block.lines@);
    s
}

/// The host a managed block describes: its alias, the value of the first line of each known
/// directive, and its other lines as the advanced text.
pub fn host_from_managed(block: &ManagedBlock) -> (h: SshHost)
    ensures
        host_describes(h, *block),
{
    let port = match known_value_of(block, KnownDirective::Port) {
        Some(v) => parse_port(v.as_str()),
        None => None,
    };
    SshHost {
        alias: block.alias.clone(),
        host_name: known_value_of(block, KnownDirective::HostName),
        user: known_value_of(block, KnownDirective::User),
        port,
        identity_file: known_value_of(block, KnownDirective::IdentityFile),
        proxy_jump: known_value_of(block, KnownDirective::ProxyJump),
        extra: extra_text(block),
        read_only: false,
    }
}

} // verus!
