//! Reading back what was written: a host saved into its block is what a later read of that
//! block gives, provided its values are clean and its advanced text names no form field.
use vstd::prelude::*;

use crate::host;
use crate::model::{self, BlockLine, KnownDirective, ManagedBlock, Segment, SshHost};
use crate::parser;
use crate::text;
use crate::writer;

verus! {

// ---------------------------------------------------------------------------------------------
// What a line says
// ---------------------------------------------------------------------------------------------
/// The directive a line's content names, when it is neither blank nor a comment.
pub open spec fn content_directive(c: Seq<char>) -> Option<KnownDirective> {
    if parser::is_directive(c) {
        KnownDirective::named(parser::leading_word(c))
    } else {
        None
    }
}

/// The value a line's content sets: what follows its first word, trimmed.
pub open spec fn content_value(c: Seq<char>) -> Seq<char> {
    let t = text::trim_start(c);
    host::trim(t.skip(text::token_len(t) as int))
}

/// A form value that reads back as written: no surrounding whitespace, no line break.
pub open spec fn clean_value(x: Seq<char>) -> bool {
    host::trim(x) == x && !x.contains('\n')
}

pub open spec fn clean_opt(v: Option<Seq<char>>) -> bool {
    match v {
        Some(x) => clean_value(x),
        None => true,
    }
}

proof fn lemma_trailing_ws_len_bound(s: Seq<char>)
    ensures
        host::trailing_ws_len(s) <= s.len(),
    decreases s.len(),
{
    if s.len() > 0 && text::is_ws(s.last()) {
        lemma_trailing_ws_len_bound(s.drop_last());
    }
}

proof fn lemma_trim_start_drop_ws(c: Seq<char>)
    requires
        c.len() > 0,
        text::is_ws(c.last()),
    ensures
        text::trim_start(c).len() > 0 ==> text::trim_start(c.drop_last()) == text::trim_start(c).drop_last(),
        text::trim_start(c).len() == 0 ==> text::trim_start(c.drop_last()).len() == 0,
{
    text::lemma_ws_len_facts(c);
    let w = text::ws_len(c);
    let c2 = c.drop_last();
    if w == c.len() {
        assert forall|i: int| 0 <= i < c2.len() implies text::is_ws(#[trigger] c2[i]) by {
            assert(c2[i] == c[i]);
        }
        text::lemma_ws_len_is(c2, c2.len() as int);
    } else {
        assert(w < c.len() - 1);
        assert forall|i: int| 0 <= i < w implies text::is_ws(#[trigger] c2[i]) by {
            assert(c2[i] == c[i]);
        }
        assert(c2[w as int] == c[w as int]);
        text::lemma_ws_len_is(c2, w as int);
        assert(c2.skip(w as int) == c.skip(w as int).drop_last());
    }
}

proof fn lemma_token_len_drop_ws(t: Seq<char>)
    requires
        t.len() > 0,
        text::is_ws(t.last()),
    ensures
        text::token_len(t.drop_last()) == text::token_len(t),
        text::token_len(t) < t.len(),
{
    text::lemma_token_len_facts(t);
    let k = text::token_len(t);
    let t2 = t.drop_last();
    if k == t.len() {
        assert(!text::is_ws(t[t.len() - 1]));
    }
    assert forall|i: int| 0 <= i < k implies !text::is_ws(#[trigger] t2[i]) by {
        assert(t2[i] == t[i]);
    }
    if k < t2.len() {
        assert(t2[k as int] == t[k as int]);
    }
    text::lemma_token_len_is(t2, k as int);
}

proof fn lemma_trim_drop_ws(u: Seq<char>)
    requires
        u.len() > 0,
        text::is_ws(u.last()),
    ensures
        host::trim(u.drop_last()) == host::trim(u),
{
    lemma_trim_start_drop_ws(u);
    let ts = text::trim_start(u);
    let ts2 = text::trim_start(u.drop_last());
    if ts.len() > 0 {
        text::lemma_ws_len_facts(u);
        assert(ts.last() == u.last());
        assert(ts.drop_last() == ts2);
        lemma_trailing_ws_len_bound(ts2);
        assert(host::trailing_ws_len(ts) == 1 + host::trailing_ws_len(ts2));
        assert(ts2.take(ts2.len() - host::trailing_ws_len(ts2)) == ts.take(ts.len() - host::trailing_ws_len(ts)));
    } else {
        assert(host::trim(u) == Seq::<char>::empty());
        assert(host::trim(u.drop_last()) == Seq::<char>::empty());
    }
}

/// Dropping trailing whitespace changes neither the directive a content names nor its value.
pub proof fn lemma_content_drop_ws(c: Seq<char>)
    requires
        c.len() > 0,
        text::is_ws(c.last()),
    ensures
        content_directive(c.drop_last()) == content_directive(c),
        content_value(c.drop_last()) == content_value(c),
{
    lemma_trim_start_drop_ws(c);
    let t = text::trim_start(c);
    let t2 = text::trim_start(c.drop_last());
    if t.len() > 0 {
        text::lemma_ws_len_facts(c);
        assert(t[0] == c[text::ws_len(c) as int]);
        assert(t.last() == c.last());
        lemma_token_len_drop_ws(t);
        let k = text::token_len(t);
        assert(t2 == t.drop_last());
        assert(t.len() >= 2);
        assert(t2[0] == t[0]);
        assert(t2.take(k as int) == t.take(k as int));
        assert(parser::leading_word(c.drop_last()) == parser::leading_word(c));
        let u = t.skip(k as int);
        assert(u.last() == t.last());
        lemma_trim_drop_ws(u);
        assert(t2.skip(k as int) == u.drop_last());
    } else {
        assert(t2.len() == 0);
        assert(t.skip(text::token_len(t) as int).len() == 0);
        assert(t2.skip(text::token_len(t2) as int).len() == 0);
        assert(host::trim(Seq::<char>::empty()) == Seq::<char>::empty());
        assert(host::trim(t.skip(text::token_len(t) as int)) == Seq::<char>::empty());
        assert(host::trim(t2.skip(text::token_len(t2) as int)) == Seq::<char>::empty());
    }
}

/// Giving a line that lacks `\n` a terminator changes neither what it says nor its value.
pub proof fn lemma_terminate_keeps_meaning(t: Seq<char>, e: Seq<char>)
    requires
        writer::lacks_newline(t),
        e == writer::lf() || e == writer::crlf(),
    ensures
        parser::line_directive(t + e) == parser::line_directive(t),
        host::line_value(t + e) == host::line_value(t),
        !(t.len() > 0 && t.last() == '\r') ==> text::strip_term(t + e) == t,
{
    assert(text::strip_term(t) == t);
    let s = t + e;
    if e == writer::crlf() {
        assert(s.drop_last() == t.push('\r'));
        assert(s.drop_last().drop_last() == t);
    } else {
        assert(s.drop_last() == t);
        if t.len() > 0 && t.last() == '\r' {
            lemma_content_drop_ws(t);
        }
    }
}

/// Only a line's last character may be `\n`.
pub open spec fn one_line(l: Seq<char>) -> bool {
    forall|j: int| 0 <= j < l.len() - 1 ==> l[j] != '\n'
}

/// The content of such a line holds no `\n`.
pub proof fn lemma_one_line_content(l: Seq<char>)
    requires
        one_line(l),
    ensures
        !text::strip_term(l).contains('\n'),
{
    let c = text::strip_term(l);
    if c.contains('\n') {
        let j = choose|j: int| 0 <= j < c.len() && c[j] == '\n';
        assert(c[j] == l[j]);
        if c.len() == l.len() {
            assert(!(l.len() > 0 && l.last() == '\n'));
        }
    }
}

/// A word that names a directive is not empty.
pub proof fn lemma_named_nonempty(w: Seq<char>)
    requires
        KnownDirective::named(w) is Some,
    ensures
        w.len() > 0,
{
}

/// A clean value starts and ends with something other than whitespace.
proof fn lemma_clean_edges(x: Seq<char>)
    requires
        clean_value(x),
        x.len() > 0,
    ensures
        !text::is_ws(x[0]),
        !text::is_ws(x.last()),
{
    text::lemma_ws_len_facts(x);
    let t = text::trim_start(x);
    lemma_trailing_ws_len_bound(t);
    if text::ws_len(x) > 0 {
        assert(host::trim(x).len() < x.len());
    }
    assert(t == x);
    if text::is_ws(x.last()) {
        assert(host::trailing_ws_len(t) >= 1);
        assert(host::trim(x).len() < x.len());
    }
}

/// `trim` skips a leading space.
proof fn lemma_trim_space_prefix(x: Seq<char>)
    ensures
        host::trim(seq![' '] + x) == host::trim(x),
{
    let s = seq![' '] + x;
    assert(s.drop_first() == x);
    assert(text::ws_len(s) == 1 + text::ws_len(x));
    text::lemma_ws_len_facts(x);
    assert(s.skip(text::ws_len(s) as int) == x.skip(text::ws_len(x) as int));
}

/// `k + " " + x`, with `k` whitespace then a word and `x` clean: the word names what the
/// content says, and `x` is its value.
proof fn lemma_keyword_value_content(k: Seq<char>, w: nat, x: Seq<char>)
    requires
        w < k.len(),
        forall|i: int| 0 <= i < w ==> text::is_ws(#[trigger] k[i]),
        forall|i: int| w <= i < k.len() ==> !text::is_ws(#[trigger] k[i]),
        clean_value(x),
    ensures
        text::trim_start(k + seq![' '] + x) == k.skip(w as int) + seq![' '] + x,
        parser::leading_word(k + seq![' '] + x) == k.skip(w as int),
        content_value(k + seq![' '] + x) == x,
{
    let c = k + seq![' '] + x;
    assert forall|i: int| 0 <= i < w implies text::is_ws(#[trigger] c[i]) by {
        assert(c[i] == k[i]);
    }
    assert(c[w as int] == k[w as int]);
    text::lemma_ws_len_is(c, w as int);
    let t = c.skip(w as int);
    let word = k.skip(w as int);
    assert(t == word + seq![' '] + x);
    assert forall|i: int| 0 <= i < word.len() implies !text::is_ws(#[trigger] t[i]) by {
        assert(t[i] == k[w + i]);
    }
    assert(t[word.len() as int] == ' ');
    text::lemma_token_len_is(t, word.len() as int);
    assert(t.take(word.len() as int) == word);
    assert(t.skip(word.len() as int) == seq![' '] + x);
    lemma_trim_space_prefix(x);
}

/// The body of a line without its terminator, when the body ends in a clean value or a space.
proof fn lemma_strip_clean_body(b: Seq<char>, x: Seq<char>, term: Seq<char>)
    requires
        b.len() > 0,
        x.len() > 0 ==> b.last() == x.last(),
        x.len() == 0 ==> b.last() == ' ',
        !b.contains('\n'),
        clean_value(x),
        term == Seq::<char>::empty() || term == writer::lf() || term == writer::crlf(),
    ensures
        text::strip_term(b + term) == b,
{
    if x.len() > 0 {
        lemma_clean_edges(x);
    }
    assert(b.last() != '\r');
    assert(b.last() != '\n') by {
        assert(b[b.len() - 1] == b.last());
    }
    if term == writer::lf() {
        assert((b + term).drop_last() == b);
    } else if term == writer::crlf() {
        assert((b + term).drop_last().drop_last() == b);
    } else {
        assert(b + term == b);
    }
}

/// A line given a clean value by `with_value` still names its directive and now sets that value.
pub proof fn lemma_with_value_meaning(l: Seq<char>, x: Seq<char>)
    requires
        parser::line_directive(l) is Some,
        one_line(l),
        clean_value(x),
    ensures
        parser::line_directive(writer::with_value(l, x)) == parser::line_directive(l),
        host::line_value(writer::with_value(l, x)) == x,
        one_line(writer::with_value(l, x)),
{
    let c0 = text::strip_term(l);
    lemma_one_line_content(l);
    let w = text::ws_len(c0);
    text::lemma_ws_len_facts(c0);
    let t0 = text::trim_start(c0);
    text::lemma_token_len_facts(t0);
    let kn = text::token_len(t0);
    let word = parser::leading_word(c0);
    lemma_named_nonempty(word);
    let k = writer::keyword_part(l);
    assert(k == c0.take((w + kn) as int));
    assert forall|i: int| 0 <= i < w implies text::is_ws(#[trigger] k[i]) by {
        assert(k[i] == c0[i]);
    }
    assert forall|i: int| w <= i < k.len() implies !text::is_ws(#[trigger] k[i]) by {
        assert(k[i] == t0[i - w]);
    }
    lemma_keyword_value_content(k, w, x);
    assert(k.skip(w as int) == word);
    let b = k + seq![' '] + x;
    let term = writer::terminator(l);
    assert(l == c0 + term);
    assert(term == Seq::<char>::empty() || term == writer::lf() || term == writer::crlf());
    assert(!b.contains('\n')) by {
        if b.contains('\n') {
            let j = choose|j: int| 0 <= j < b.len() && b[j] == '\n';
            if j < k.len() {
                assert(k[j] == c0[j]);
                assert(c0.contains('\n'));
            } else if j > k.len() {
                assert(x[j - k.len() - 1] == '\n');
            }
        }
    }
    if x.len() > 0 {
        assert(b.last() == x.last());
    }
    lemma_strip_clean_body(b, x, term);
    assert(writer::with_value(l, x) == b + term);
    assert(t0[0] == c0[w as int]);
    let lv = b + term;
    assert forall|j: int| 0 <= j < lv.len() - 1 implies lv[j] != '\n' by {
        if j < b.len() {
            assert(lv[j] == b[j]);
        } else {
            assert(term == writer::crlf());
            assert(lv[j] == '\r');
        }
    }
}

/// The canonical keyword names its own directive.
pub proof fn lemma_word_named(d: KnownDirective)
    ensures
        KnownDirective::named(d.word()) == Some(d),
        forall|i: int| 0 <= i < d.word().len() ==> !text::is_ws(#[trigger] d.word()[i]),
{
    let w = d.word();
    assert(text::eq_ic(w, w));
    match d {
        KnownDirective::Port => {
            assert(text::lower_code(w[0]) != text::lower_code(crate::model::user_kw()[0]));
        },
        _ => {},
    }
}

/// A new known line names its directive and sets its value.
pub proof fn lemma_new_known_meaning(d: KnownDirective, x: Seq<char>, e: Seq<char>)
    requires
        clean_value(x),
        e == writer::lf() || e == writer::crlf(),
    ensures
        parser::line_directive(writer::new_known_text(d, x, e)) == Some(d),
        host::line_value(writer::new_known_text(d, x, e)) == x,
        one_line(writer::new_known_text(d, x, e)),
        !writer::lacks_newline(writer::new_known_text(d, x, e)),
{
    lemma_word_named(d);
    let k = writer::indent() + d.word();
    assert forall|i: int| 0 <= i < 4 implies text::is_ws(#[trigger] k[i]) by {
        assert(k[i] == ' ');
    }
    assert forall|i: int| 4 <= i < k.len() implies !text::is_ws(#[trigger] k[i]) by {
        assert(k[i] == d.word()[i - 4]);
    }
    lemma_keyword_value_content(k, 4, x);
    assert(k.skip(4) == d.word());
    let b = k + seq![' '] + x;
    assert(!b.contains('\n')) by {
        if b.contains('\n') {
            let j = choose|j: int| 0 <= j < b.len() && b[j] == '\n';
            if j < k.len() {
                assert(text::is_ws(k[j]) || !text::is_ws(k[j]));
                if j >= 4 {
                    assert(!text::is_ws(k[j]));
                }
            } else if j > k.len() {
                assert(x[j - k.len() - 1] == '\n');
            }
        }
    }
    if x.len() > 0 {
        assert(b.last() == x.last());
    }
    lemma_strip_clean_body(b, x, e);
    assert(writer::new_known_text(d, x, e) == b + e);
    let l = b + e;
    assert forall|j: int| 0 <= j < l.len() - 1 implies l[j] != '\n' by {
        if j < b.len() {
            assert(l[j] == b[j]);
        } else {
            assert(e == writer::crlf());
            assert(l[j] == '\r');
        }
    }
    assert(l.last() == '\n');
}

/// The decimal spelling of a port is a clean value.
pub proof fn lemma_decimal_clean(p: u16)
    ensures
        clean_value(host::decimal(p as nat)),
{
    let d = host::decimal(p as nat);
    host::lemma_decimal_digits(p as nat);
    assert(!text::is_ws(d[0]));
    text::lemma_ws_len_is(d, 0);
    assert(d.skip(0) == d);
    assert(!text::is_ws(d.last())) by {
        assert(host::is_digit(d[d.len() - 1]));
    }
    assert(host::trailing_ws_len(d) == 0);
    assert(d.take(d.len() as int) == d);
    assert(!d.contains('\n')) by {
        if d.contains('\n') {
            let j = choose|j: int| 0 <= j < d.len() && d[j] == '\n';
            assert(host::is_digit(d[j]));
        }
    }
}

// ---------------------------------------------------------------------------------------------
// Body views
// ---------------------------------------------------------------------------------------------
/// Every entry is one line, every known entry names its own directive, and no directive has
/// two entries.
pub open spec fn sound(vs: Seq<(Option<KnownDirective>, Seq<char>)>) -> bool {
    &&& forall|k: int| 0 <= k < vs.len() ==> one_line(#[trigger] vs[k].1)
    &&& forall|k: int|
        0 <= k < vs.len() && (#[trigger] vs[k]).0 is Some ==> parser::line_directive(vs[k].1)
            == vs[k].0
    &&& forall|i: int, j: int|
        0 <= i < vs.len() && 0 <= j < vs.len() && (#[trigger] vs[i]).0 is Some && vs[i].0 == (
        #[trigger] vs[j]).0 ==> i == j
}

/// The value a body view gives `d`: `Some(x)` when an entry for `d` sets `x`, `None` when no
/// entry is for `d`.
pub open spec fn gives(vs: Seq<(Option<KnownDirective>, Seq<char>)>, d: KnownDirective, r: Option<Seq<char>>) -> bool {
    match r {
        Some(x) => exists|k: int|
            0 <= k < vs.len() && (#[trigger] vs[k]).0 == Some(d) && host::line_value(vs[k].1) == x,
        None => forall|k: int| 0 <= k < vs.len() ==> (#[trigger] vs[k]).0 != Some(d),
    }
}

/// In a sound view, an entry for `d` is the first one.
proof fn lemma_sound_sets(vs: Seq<(Option<KnownDirective>, Seq<char>)>, d: KnownDirective, k: int)
    requires
        sound(vs),
        0 <= k < vs.len(),
        vs[k].0 == Some(d),
    ensures
        writer::sets_at(vs, d, k),
{
    assert forall|j: int| 0 <= j < k implies (#[trigger] vs[j]).0 != Some(d) by {
        if vs[j].0 == Some(d) {
            assert(vs[j].0 == vs[k].0);
        }
    }
}

/// Setting or clearing `d` keeps a view sound, gives `d` the new value and leaves every other
/// directive's value alone.
pub proof fn lemma_applied_sound(
    vs: Seq<(Option<KnownDirective>, Seq<char>)>,
    e: Seq<char>,
    d: KnownDirective,
    v: Option<Seq<char>>,
)
    requires
        sound(vs),
        clean_opt(v),
        e == writer::lf() || e == writer::crlf(),
    ensures
        sound(writer::applied(vs, e, d, v)),
        gives(writer::applied(vs, e, d, v), d, v),
        forall|d2: KnownDirective, r: Option<Seq<char>>|
            d2 != d && #[trigger] gives(vs, d2, r) ==> gives(writer::applied(vs, e, d, v), d2, r),
{
    let res = writer::applied(vs, e, d, v);
    if writer::sets(vs, d) {
        let i = choose|i: int| writer::sets_at(vs, d, i);
        match v {
            None => {
                assert(res == vs.remove(i));
                assert forall|k: int| 0 <= k < res.len() implies #[trigger] res[k] == vs[if k < i { k } else { k + 1 }] by {}
                assert forall|k: int| 0 <= k < res.len() implies one_line(#[trigger] res[k].1) && (res[k].0 is Some ==> parser::line_directive(res[k].1) == res[k].0) by {
                    let k2 = if k < i { k } else { k + 1 };
                    assert(res[k] == vs[k2]);
                }
                assert forall|a: int, b: int|
                    0 <= a < res.len() && 0 <= b < res.len() && (#[trigger] res[a]).0 is Some && res[a].0 == (#[trigger] res[b]).0 implies a == b by {
                    let a2 = if a < i { a } else { a + 1 };
                    let b2 = if b < i { b } else { b + 1 };
                    assert(res[a] == vs[a2]);
                    assert(res[b] == vs[b2]);
                }
                assert forall|k: int| 0 <= k < res.len() implies (#[trigger] res[k]).0 != Some(d) by {
                    let k2 = if k < i { k } else { k + 1 };
                    assert(res[k] == vs[k2]);
                    if vs[k2].0 == Some(d) {
                        assert(vs[k2].0 == vs[i].0);
                    }
                }
                assert forall|d2: KnownDirective, r: Option<Seq<char>>|
                    d2 != d && #[trigger] gives(vs, d2, r) implies gives(res, d2, r) by {
                    match r {
                        Some(x) => {
                            let k = choose|k: int| 0 <= k < vs.len() && (#[trigger] vs[k]).0 == Some(d2) && host::line_value(vs[k].1) == x;
                            assert(k != i);
                            let k2 = if k < i { k } else { k - 1 };
                            assert(res[k2] == vs[k]);
                        },
                        None => {
                            assert forall|k: int| 0 <= k < res.len() implies (#[trigger] res[k]).0 != Some(d2) by {
                                let k2 = if k < i { k } else { k + 1 };
                                assert(res[k] == vs[k2]);
                            }
                        },
                    }
                }
            },
            Some(x) => {
                let nl = writer::with_value(vs[i].1, x);
                assert(res == vs.update(i, (Some(d), nl)));
                lemma_with_value_meaning(vs[i].1, x);
                assert(res[i].0 == Some(d) && host::line_value(res[i].1) == x);
                assert forall|k: int| 0 <= k < res.len() implies one_line(#[trigger] res[k].1) && (res[k].0 is Some ==> parser::line_directive(res[k].1) == res[k].0) by {
                    if k != i {
                        assert(res[k] == vs[k]);
                    }
                }
                assert forall|d2: KnownDirective, r: Option<Seq<char>>|
                    d2 != d && #[trigger] gives(vs, d2, r) implies gives(res, d2, r) by {
                    match r {
                        Some(y) => {
                            let k = choose|k: int| 0 <= k < vs.len() && (#[trigger] vs[k]).0 == Some(d2) && host::line_value(vs[k].1) == y;
                            assert(res[k] == vs[k]);
                        },
                        None => {
                            assert forall|k: int| 0 <= k < res.len() implies (#[trigger] res[k]).0 != Some(d2) by {
                                if k != i {
                                    assert(res[k] == vs[k]);
                                }
                            }
                        },
                    }
                }
                assert forall|a: int, b: int|
                    0 <= a < res.len() && 0 <= b < res.len() && (#[trigger] res[a]).0 is Some && res[a].0 == (#[trigger] res[b]).0 implies a == b by {
                    assert(res[a].0 == vs[a].0);
                    assert(res[b].0 == vs[b].0);
                }
            },
        }
    } else {
        assert forall|k: int| 0 <= k < vs.len() implies (#[trigger] vs[k]).0 != Some(d) by {
            if vs[k].0 == Some(d) {
                lemma_sound_sets(vs, d, k);
            }
        }
        match v {
            None => {},
            Some(x) => {
                let p = writer::set_point(vs);
                assert(0 <= p <= vs.len()) by {
                    if exists|i: int| writer::last_set_at(vs, i) {
                        let c = choose|i: int| writer::last_set_at(vs, i);
                        assert(writer::last_set_at(vs, c));
                    }
                }
                let nl = writer::new_known_text(d, x, e);
                assert(res == vs.insert(p, (Some(d), nl)));
                lemma_new_known_meaning(d, x, e);
                assert(res[p].0 == Some(d) && host::line_value(res[p].1) == x);
                assert forall|k: int| 0 <= k < res.len() && k != p implies #[trigger] res[k] == vs[if k < p { k } else { k - 1 }] by {}
                assert forall|k: int| 0 <= k < res.len() implies one_line(#[trigger] res[k].1) && (res[k].0 is Some ==> parser::line_directive(res[k].1) == res[k].0) by {
                    if k != p {
                        let k2 = if k < p { k } else { k - 1 };
                        assert(res[k] == vs[k2]);
                    }
                }
                assert forall|a: int, b: int|
                    0 <= a < res.len() && 0 <= b < res.len() && (#[trigger] res[a]).0 is Some && res[a].0 == (#[trigger] res[b]).0 implies a == b by {
                    let a2 = if a < p { a } else { a - 1 };
                    let b2 = if b < p { b } else { b - 1 };
                    if a != p && b != p {
                        assert(res[a] == vs[a2]);
                        assert(res[b] == vs[b2]);
                    } else if a == p && b != p {
                        assert(res[b] == vs[b2]);
                    } else if a != p && b == p {
                        assert(res[a] == vs[a2]);
                    }
                }
                assert forall|d2: KnownDirective, r: Option<Seq<char>>|
                    d2 != d && #[trigger] gives(vs, d2, r) implies gives(res, d2, r) by {
                    match r {
                        Some(y) => {
                            let k = choose|k: int| 0 <= k < vs.len() && (#[trigger] vs[k]).0 == Some(d2) && host::line_value(vs[k].1) == y;
                            let k2 = if k < p { k } else { k + 1 };
                            assert(res[k2] == vs[k]);
                        },
                        None => {
                            assert forall|k: int| 0 <= k < res.len() implies (#[trigger] res[k]).0 != Some(d2) by {
                                if k != p {
                                    let k2 = if k < p { k } else { k - 1 };
                                    assert(res[k] == vs[k2]);
                                }
                            }
                        },
                    }
                }
            },
        }
    }
}

/// No body line holds a `\n` but at its end.
pub open spec fn lines_shaped(lines: Seq<BlockLine>) -> bool {
    forall|k: int| 0 <= k < lines.len() ==> one_line(#[trigger] lines[k].raw().0@)
}

/// A well-classified body is sound, and gives each directive the value a read finds.
pub proof fn lemma_initial_sound(lines: Seq<BlockLine>)
    requires
        parser::well_classified(lines),
        lines_shaped(lines),
    ensures
        sound(writer::view_lines(lines)),
        forall|d: KnownDirective| #[trigger] gives(writer::view_lines(lines), d, host::known_value(lines, d)),
{
    let vs = writer::view_lines(lines);
    let ts = model::body_texts(lines);
    assert forall|k: int| 0 <= k < vs.len() implies one_line(#[trigger] vs[k].1) && (vs[k].0 is Some ==> parser::line_directive(vs[k].1)
        == vs[k].0) by {
        assert(one_line(lines[k].raw().0@));
    }
    assert forall|i: int, j: int|
        0 <= i < vs.len() && 0 <= j < vs.len() && (#[trigger] vs[i]).0 is Some && vs[i].0 == (#[trigger] vs[j]).0 implies i == j by {
        assert(lines[i] is Known && lines[j] is Known);
        assert(ts[i] == lines[i].raw().0@);
        assert(ts[j] == lines[j].raw().0@);
        assert(parser::first_occurrence(ts, i));
        assert(parser::first_occurrence(ts, j));
        if i < j {
            assert(parser::line_directive(ts[i]) != parser::line_directive(ts[j]));
        }
        if j < i {
            assert(parser::line_directive(ts[j]) != parser::line_directive(ts[i]));
        }
    }
    assert forall|d: KnownDirective| #[trigger] gives(vs, d, host::known_value(lines, d)) by {
        if host::has_known(lines, d) {
            let c = choose|i: int| host::is_first_known(lines, d, i);
            assert(vs[c].0 == Some(d));
        } else {
            assert forall|k: int| 0 <= k < vs.len() implies (#[trigger] vs[k]).0 != Some(d) by {
                if vs[k].0 == Some(d) {
                    lemma_sound_sets(vs, d, k);
                    writer::lemma_first_known_view(lines, d, k);
                }
            }
        }
    }
}

/// One field of the form written over a sound view.
pub proof fn lemma_field_step(
    vs: Seq<(Option<KnownDirective>, Seq<char>)>,
    e: Seq<char>,
    d: KnownDirective,
    held: Option<Seq<char>>,
    wanted: Option<Seq<char>>,
    r: Option<Seq<char>>,
)
    requires
        sound(vs),
        clean_opt(wanted),
        gives(vs, d, r),
        e == writer::lf() || e == writer::crlf(),
    ensures
        sound(writer::field_step(vs, e, d, held, wanted)),
        gives(writer::field_step(vs, e, d, held, wanted), d, if held == wanted { r } else { wanted }),
        forall|d2: KnownDirective, r2: Option<Seq<char>>|
            d2 != d && #[trigger] gives(vs, d2, r2) ==> gives(writer::field_step(vs, e, d, held, wanted), d2, r2),
{
    if held != wanted {
        lemma_applied_sound(vs, e, d, wanted);
    }
}

/// Two ports spelled alike are the same port.
proof fn lemma_port_text_injective(a: Option<u16>, b: Option<u16>)
    requires
        writer::port_text(a) == writer::port_text(b),
    ensures
        a == b,
{
    match (a, b) {
        (Some(x), Some(y)) => {
            host::lemma_parse_decimal(x);
            host::lemma_parse_decimal(y);
        },
        _ => {},
    }
}

/// The spelling of a port reads back as that port.
proof fn lemma_port_text_reads_back(p: Option<u16>)
    ensures
        host::port_of(writer::port_text(p)) == p,
        clean_opt(writer::port_text(p)),
{
    if let Some(n) = p {
        host::lemma_parse_decimal(n);
        lemma_decimal_clean(n);
    }
}

/// The form's values whose lines read back as written.
pub open spec fn clean_fields(h: SshHost) -> bool {
    &&& clean_opt(host::opt_view(h.host_name))
    &&& clean_opt(host::opt_view(h.user))
    &&& clean_opt(host::opt_view(h.identity_file))
    &&& clean_opt(host::opt_view(h.proxy_jump))
}

/// Once the fields are written, the view is sound and gives every field the form's value.
pub proof fn lemma_fields_sound(lines: Seq<BlockLine>, e: Seq<char>, h: SshHost)
    requires
        parser::well_classified(lines),
        lines_shaped(lines),
        e == writer::lf() || e == writer::crlf(),
        clean_fields(h),
    ensures
        sound(writer::fields_written(lines, e, h)),
        gives(writer::fields_written(lines, e, h), KnownDirective::HostName, host::opt_view(h.host_name)),
        gives(writer::fields_written(lines, e, h), KnownDirective::User, host::opt_view(h.user)),
        gives(writer::fields_written(lines, e, h), KnownDirective::IdentityFile, host::opt_view(h.identity_file)),
        gives(writer::fields_written(lines, e, h), KnownDirective::ProxyJump, host::opt_view(h.proxy_jump)),
        exists|rp: Option<Seq<char>>|
            gives(writer::fields_written(lines, e, h), KnownDirective::Port, rp) && host::port_of(rp) == h.port,
{
    lemma_initial_sound(lines);
    let v0 = writer::view_lines(lines);
    let kv = |d: KnownDirective| host::known_value(lines, d);
    assert(gives(v0, KnownDirective::HostName, kv(KnownDirective::HostName)));
    assert(gives(v0, KnownDirective::User, kv(KnownDirective::User)));
    assert(gives(v0, KnownDirective::Port, kv(KnownDirective::Port)));
    assert(gives(v0, KnownDirective::IdentityFile, kv(KnownDirective::IdentityFile)));
    assert(gives(v0, KnownDirective::ProxyJump, kv(KnownDirective::ProxyJump)));
    let held_port = writer::port_text(host::port_of(kv(KnownDirective::Port)));
    let wanted_port = writer::port_text(h.port);
    lemma_port_text_reads_back(h.port);
    let v1 = writer::field_step(v0, e, KnownDirective::HostName, kv(KnownDirective::HostName), host::opt_view(h.host_name));
    lemma_field_step(v0, e, KnownDirective::HostName, kv(KnownDirective::HostName), host::opt_view(h.host_name), kv(KnownDirective::HostName));
    let v2 = writer::field_step(v1, e, KnownDirective::User, kv(KnownDirective::User), host::opt_view(h.user));
    lemma_field_step(v1, e, KnownDirective::User, kv(KnownDirective::User), host::opt_view(h.user), kv(KnownDirective::User));
    let v3 = writer::field_step(v2, e, KnownDirective::Port, held_port, wanted_port);
    lemma_field_step(v2, e, KnownDirective::Port, held_port, wanted_port, kv(KnownDirective::Port));
    let rp = if held_port == wanted_port { kv(KnownDirective::Port) } else { wanted_port };
    if held_port == wanted_port {
        lemma_port_text_injective(host::port_of(kv(KnownDirective::Port)), h.port);
    }
    let v4 = writer::field_step(v3, e, KnownDirective::IdentityFile, kv(KnownDirective::IdentityFile), host::opt_view(h.identity_file));
    lemma_field_step(v3, e, KnownDirective::IdentityFile, kv(KnownDirective::IdentityFile), host::opt_view(h.identity_file), kv(KnownDirective::IdentityFile));
    lemma_field_step(v4, e, KnownDirective::ProxyJump, kv(KnownDirective::ProxyJump), host::opt_view(h.proxy_jump), kv(KnownDirective::ProxyJump));
    assert(gives(writer::fields_written(lines, e, h), KnownDirective::Port, rp));
}

// ---------------------------------------------------------------------------------------------
// Advanced lines
// ---------------------------------------------------------------------------------------------
/// A line content that reads back as written among the advanced lines: it names no form field
/// and does not end with `\r`.
pub open spec fn plain_line(c: Seq<char>) -> bool {
    content_directive(c) is None && !(c.len() > 0 && c.last() == '\r')
}

/// Advanced-options text whose every line is plain.
pub open spec fn plain_extra(e: Seq<char>) -> bool {
    forall|k: int| 0 <= k < host::extra_lines(e).len() ==> plain_line(#[trigger] host::extra_lines(e)[k])
}

/// A text without `\n` is a single piece.
proof fn lemma_split_single(c: Seq<char>)
    requires
        !c.contains('\n'),
    ensures
        host::split_nl(c) == seq![c],
    decreases c.len(),
{
    if c.len() > 0 {
        let p = c.drop_last();
        assert(!p.contains('\n')) by {
            if p.contains('\n') {
                let j = choose|j: int| 0 <= j < p.len() && p[j] == '\n';
                assert(c[j] == '\n');
            }
        }
        lemma_split_single(p);
        assert(c.last() != '\n') by {
            assert(c[c.len() - 1] == c.last());
        }
        assert(p.push(c.last()) == c);
        let r = host::split_nl(p);
        assert(host::split_nl(c) == r.update(r.len() - 1, r.last().push(c.last())));
        assert(r.update(r.len() - 1, r.last().push(c.last())) =~= seq![c]);
    } else {
        assert(c =~= Seq::<char>::empty());
    }
}

/// Splitting `x + "\n" + l` gives the pieces of `x`, then `l`.
proof fn lemma_split_append(x: Seq<char>, l: Seq<char>)
    requires
        !l.contains('\n'),
    ensures
        host::split_nl(x + seq!['\n'] + l) == host::split_nl(x).push(l),
    decreases l.len(),
{
    let s = x + seq!['\n'] + l;
    if l.len() == 0 {
        assert(s.drop_last() == x);
        assert(s.last() == '\n');
        assert(l =~= Seq::<char>::empty());
        assert(host::split_nl(s) == host::split_nl(s.drop_last()).push(Seq::<char>::empty()));
    } else {
        let p = l.drop_last();
        assert(!p.contains('\n')) by {
            if p.contains('\n') {
                let j = choose|j: int| 0 <= j < p.len() && p[j] == '\n';
                assert(l[j] == '\n');
            }
        }
        lemma_split_append(x, p);
        assert(s.drop_last() == x + seq!['\n'] + p);
        assert(s.last() == l.last());
        assert(l.last() != '\n') by {
            assert(l[l.len() - 1] == l.last());
        }
        assert(p.push(l.last()) == l);
        let r = host::split_nl(s.drop_last());
        assert(r == host::split_nl(x).push(p));
        assert(host::split_nl(s) == r.update(r.len() - 1, r.last().push(s.last())));
        assert(r.update(r.len() - 1, r.last().push(s.last())) =~= host::split_nl(x).push(l));
    }
}

/// Joining pieces without `\n` and splitting again gives the pieces back.
proof fn lemma_split_join(cs: Seq<Seq<char>>)
    requires
        cs.len() >= 1,
        forall|k: int| 0 <= k < cs.len() ==> !(#[trigger] cs[k]).contains('\n'),
    ensures
        host::split_nl(host::join_lines(cs)) == cs,
    decreases cs.len(),
{
    if cs.len() == 1 {
        lemma_split_single(cs[0]);
        assert(seq![cs[0]] == cs);
    } else {
        let p = cs.drop_last();
        lemma_split_join(p);
        lemma_split_append(host::join_lines(p), cs.last());
        assert(p.push(cs.last()) == cs);
    }
}

/// The contents of the other entries of a view.
pub open spec fn stripped_others(vs: Seq<(Option<KnownDirective>, Seq<char>)>) -> Seq<Seq<char>> {
    writer::other_views(vs).map_values(|l: Seq<char>| text::strip_term(l))
}

/// `other_views` of a prefix is a prefix of `other_views`.
proof fn lemma_other_views_prefix(vs: Seq<(Option<KnownDirective>, Seq<char>)>, a: int)
    requires
        0 <= a <= vs.len(),
    ensures
        writer::other_views(vs.take(a)).len() <= writer::other_views(vs).len(),
        forall|j: int|
            0 <= j < writer::other_views(vs.take(a)).len() ==> #[trigger] writer::other_views(vs.take(a))[j]
                == writer::other_views(vs)[j],
    decreases vs.len() - a,
{
    if a == vs.len() {
        assert(vs.take(a) == vs);
    } else {
        lemma_other_views_prefix(vs, a + 1);
        let q = vs.take(a + 1);
        assert(q.drop_last() == vs.take(a));
        assert(q.len() > 0);
        let ov = writer::other_views(vs.take(a));
        let ov1 = writer::other_views(q);
        assert(ov1 == writer::other_views(q.drop_last()) || ov1 == writer::other_views(q.drop_last()).push(q.last().1));
        assert forall|j: int| 0 <= j < ov.len() implies #[trigger] ov[j] == writer::other_views(vs)[j] by {
            assert(ov[j] == ov1[j]);
        }
    }
}

/// An other entry `k` is entry `other_views(vs.take(k)).len()` of `other_views(vs)`.
proof fn lemma_other_views_at(vs: Seq<(Option<KnownDirective>, Seq<char>)>, k: int)
    requires
        0 <= k < vs.len(),
        vs[k].0 is None,
    ensures
        writer::other_views(vs.take(k)).len() < writer::other_views(vs).len(),
        writer::other_views(vs)[writer::other_views(vs.take(k)).len() as int] == vs[k].1,
{
    lemma_other_views_prefix(vs, k + 1);
    let q = vs.take(k + 1);
    assert(q.drop_last() == vs.take(k));
    assert(q.last() == vs[k]);
    let ov = writer::other_views(vs.take(k));
    assert(writer::other_views(q) == ov.push(vs[k].1));
    assert(writer::other_views(q)[ov.len() as int] == vs[k].1);
}

/// `known_views` of a prefix is a prefix of `known_views`.
proof fn lemma_known_views_prefix(vs: Seq<(Option<KnownDirective>, Seq<char>)>, a: int)
    requires
        0 <= a <= vs.len(),
    ensures
        writer::known_views(vs.take(a)).len() <= writer::known_views(vs).len(),
        forall|j: int|
            0 <= j < writer::known_views(vs.take(a)).len() ==> #[trigger] writer::known_views(vs.take(a))[j]
                == writer::known_views(vs)[j],
    decreases vs.len() - a,
{
    if a == vs.len() {
        assert(vs.take(a) == vs);
    } else {
        lemma_known_views_prefix(vs, a + 1);
        let q = vs.take(a + 1);
        assert(q.drop_last() == vs.take(a));
        assert(q.len() > 0);
        let ov = writer::known_views(vs.take(a));
        let ov1 = writer::known_views(q);
        assert(ov1 == writer::known_views(q.drop_last()) || ov1 == writer::known_views(q.drop_last()).push(q.last()));
        assert forall|j: int| 0 <= j < ov.len() implies #[trigger] ov[j] == writer::known_views(vs)[j] by {
            assert(ov[j] == ov1[j]);
        }
    }
}

/// A known entry `k` is entry `known_views(vs.take(k)).len()` of `known_views(vs)`, and later
/// known entries come later there.
proof fn lemma_known_views_at(vs: Seq<(Option<KnownDirective>, Seq<char>)>, k: int)
    requires
        0 <= k < vs.len(),
        vs[k].0 is Some,
    ensures
        writer::known_views(vs.take(k)).len() < writer::known_views(vs).len(),
        writer::known_views(vs)[writer::known_views(vs.take(k)).len() as int] == vs[k],
        writer::known_views(vs.take(k + 1)).len() == writer::known_views(vs.take(k)).len() + 1,
{
    lemma_known_views_prefix(vs, k + 1);
    let q = vs.take(k + 1);
    assert(q.drop_last() == vs.take(k));
    assert(q.last() == vs[k]);
    let kv = writer::known_views(vs.take(k));
    assert(writer::known_views(q) == kv.push(vs[k]));
    assert(writer::known_views(q)[kv.len() as int] == vs[k]);
}

/// Counting known entries is monotone along the view.
proof fn lemma_known_count_mono(vs: Seq<(Option<KnownDirective>, Seq<char>)>, a: int, b: int)
    requires
        0 <= a <= b <= vs.len(),
    ensures
        writer::known_views(vs.take(a)).len() <= writer::known_views(vs.take(b)).len(),
{
    lemma_known_views_prefix(vs.take(b), a);
    assert(vs.take(b).take(a) == vs.take(a));
}

/// Every entry of `known_views` is a known entry of the view.
proof fn lemma_known_views_from(vs: Seq<(Option<KnownDirective>, Seq<char>)>, j: int)
    requires
        0 <= j < writer::known_views(vs).len(),
    ensures
        exists|k: int|
            0 <= k < vs.len() && vs[k].0 is Some && writer::known_views(vs.take(k)).len() == j
                && #[trigger] vs[k] == writer::known_views(vs)[j],
    decreases vs.len(),
{
    let p = vs.drop_last();
    assert(vs.take(vs.len() - 1) == p);
    if j < writer::known_views(p).len() {
        lemma_known_views_from(p, j);
        let k = choose|k: int|
            0 <= k < p.len() && p[k].0 is Some && writer::known_views(p.take(k)).len() == j
                && #[trigger] p[k] == writer::known_views(p)[j];
        assert(p.take(k) == vs.take(k));
        assert(vs[k] == p[k]);
    } else {
        let k = vs.len() - 1;
        assert(vs[k] == vs.last());
    }
}

/// Views whose known entries agree satisfy the same soundness and give the same values, as far
/// as known entries go.
proof fn lemma_known_transfer(
    a: Seq<(Option<KnownDirective>, Seq<char>)>,
    b: Seq<(Option<KnownDirective>, Seq<char>)>,
    d: KnownDirective,
    r: Option<Seq<char>>,
)
    requires
        writer::known_views(a) == writer::known_views(b),
        sound(a),
        gives(a, d, r),
    ensures
        forall|k: int|
            0 <= k < b.len() && (#[trigger] b[k]).0 is Some ==> parser::line_directive(b[k].1) == b[k].0
                && one_line(b[k].1),
        forall|i: int, j: int|
            0 <= i < b.len() && 0 <= j < b.len() && (#[trigger] b[i]).0 is Some && b[i].0 == (#[trigger] b[j]).0 ==> i == j,
        gives(b, d, r),
{
    let kv = writer::known_views(a);
    assert forall|k: int| 0 <= k < b.len() && (#[trigger] b[k]).0 is Some implies parser::line_directive(b[k].1)
        == b[k].0 && one_line(b[k].1) by {
        lemma_known_views_at(b, k);
        let j = writer::known_views(b.take(k)).len() as int;
        lemma_known_views_from(a, j);
        let k2 = choose|k2: int|
            0 <= k2 < a.len() && a[k2].0 is Some && writer::known_views(a.take(k2)).len() == j
                && #[trigger] a[k2] == kv[j];
        assert(a[k2] == b[k]);
    }
    assert forall|i: int, j: int|
        0 <= i < b.len() && 0 <= j < b.len() && (#[trigger] b[i]).0 is Some && b[i].0 == (#[trigger] b[j]).0 implies i == j by {
        if i != j {
            let (lo, hi) = if i < j { (i, j) } else { (j, i) };
            lemma_known_views_at(b, lo);
            lemma_known_views_at(b, hi);
            lemma_known_count_mono(b, lo + 1, hi);
            let jl = writer::known_views(b.take(lo)).len() as int;
            let jh = writer::known_views(b.take(hi)).len() as int;
            lemma_known_views_from(a, jl);
            lemma_known_views_from(a, jh);
            let kl = choose|k2: int|
                0 <= k2 < a.len() && a[k2].0 is Some && writer::known_views(a.take(k2)).len() == jl
                    && #[trigger] a[k2] == kv[jl];
            let kh = choose|k2: int|
                0 <= k2 < a.len() && a[k2].0 is Some && writer::known_views(a.take(k2)).len() == jh
                    && #[trigger] a[k2] == kv[jh];
            assert(a[kl].0 == a[kh].0);
            assert(kl != kh);
        }
    }
    match r {
        Some(x) => {
            let k = choose|k: int| 0 <= k < a.len() && (#[trigger] a[k]).0 == Some(d) && host::line_value(a[k].1) == x;
            lemma_known_views_at(a, k);
            let j = writer::known_views(a.take(k)).len() as int;
            lemma_known_views_from(b, j);
            let k2 = choose|k2: int|
                0 <= k2 < b.len() && b[k2].0 is Some && writer::known_views(b.take(k2)).len() == j
                    && #[trigger] b[k2] == writer::known_views(b)[j];
            assert(b[k2] == a[k]);
        },
        None => {
            assert forall|k: int| 0 <= k < b.len() implies (#[trigger] b[k]).0 != Some(d) by {
                if b[k].0 == Some(d) {
                    lemma_known_views_at(b, k);
                    let j = writer::known_views(b.take(k)).len() as int;
                    lemma_known_views_from(a, j);
                    let k2 = choose|k2: int|
                        0 <= k2 < a.len() && a[k2].0 is Some && writer::known_views(a.take(k2)).len() == j
                            && #[trigger] a[k2] == kv[j];
                    assert(a[k2] == b[k]);
                }
            }
        },
    }
}

/// The texts of the other entries of a view whose entries are one line each are one line each.
proof fn lemma_other_views_one_line(vs: Seq<(Option<KnownDirective>, Seq<char>)>)
    requires
        forall|k: int| 0 <= k < vs.len() ==> one_line(#[trigger] vs[k].1),
    ensures
        forall|j: int| 0 <= j < writer::other_views(vs).len() ==> one_line(#[trigger] writer::other_views(vs)[j]),
    decreases vs.len(),
{
    if vs.len() > 0 {
        let p = vs.drop_last();
        assert forall|k: int| 0 <= k < p.len() implies one_line(#[trigger] p[k].1) by {
            assert(p[k] == vs[k]);
        }
        lemma_other_views_one_line(p);
        assert(one_line(vs[vs.len() - 1].1));
        let ov = writer::other_views(vs);
        let op = writer::other_views(p);
        assert(ov == op || ov == op.push(vs.last().1));
        assert forall|j: int| 0 <= j < ov.len() implies one_line(#[trigger] ov[j]) by {
            if j < op.len() {
                assert(ov[j] == op[j]);
            } else {
                assert(ov[j] == vs.last().1);
            }
        }
    }
}

/// A line holding content `c` and a terminator has content `c`, when `c` is plain.
proof fn lemma_strip_has_content(raw: Seq<char>, c: Seq<char>)
    requires
        writer::has_content(raw, c),
        !c.contains('\n'),
        plain_line(c),
    ensures
        text::strip_term(raw) == c,
{
    let t = raw.skip(c.len() as int);
    assert(raw == c + t);
    if t == writer::lf() {
        assert(raw.drop_last() == c);
        if c.len() > 0 {
            assert(c.last() != '\r');
        }
    } else if t == writer::crlf() {
        assert(raw.drop_last().drop_last() == c);
    } else {
        assert(t.len() == 0);
        assert(raw == c);
        if c.len() > 0 {
            assert(c[c.len() - 1] != '\n');
        }
    }
}

/// Joining to nothing leaves no piece but empty ones.
proof fn lemma_join_empty(cs: Seq<Seq<char>>)
    requires
        host::join_lines(cs).len() == 0,
    ensures
        forall|j: int| 0 <= j < cs.len() ==> (#[trigger] cs[j]).len() == 0,
{
    if cs.len() >= 2 {
        assert(host::join_lines(cs) == host::join_lines(cs.drop_last()) + seq!['\n'] + cs.last());
    }
}

/// Views alike in kinds, whose other entries have the same contents, strip to the same texts.
proof fn lemma_stripped_others_agree(
    a: Seq<(Option<KnownDirective>, Seq<char>)>,
    b: Seq<(Option<KnownDirective>, Seq<char>)>,
)
    requires
        a.len() == b.len(),
        forall|k: int| 0 <= k < a.len() ==> (#[trigger] a[k]).0 == b[k].0,
        forall|k: int| 0 <= k < a.len() && (#[trigger] a[k]).0 is None ==> text::strip_term(a[k].1) == text::strip_term(b[k].1),
    ensures
        stripped_others(a) == stripped_others(b),
    decreases a.len(),
{
    if a.len() > 0 {
        let pa = a.drop_last();
        let pb = b.drop_last();
        assert forall|k: int| 0 <= k < pa.len() implies (#[trigger] pa[k]).0 == pb[k].0 by {
            assert(pa[k] == a[k] && pb[k] == b[k]);
        }
        assert forall|k: int| 0 <= k < pa.len() && (#[trigger] pa[k]).0 is None implies text::strip_term(pa[k].1) == text::strip_term(pb[k].1) by {
            assert(pa[k] == a[k] && pb[k] == b[k]);
        }
        lemma_stripped_others_agree(pa, pb);
        let n = a.len() - 1;
        assert(a[n].0 == b[n].0);
        if a.last().0 is None {
            assert(stripped_others(a) =~= stripped_others(pa).push(text::strip_term(a.last().1)));
            assert(stripped_others(b) =~= stripped_others(pb).push(text::strip_term(b.last().1)));
        } else {
            assert(stripped_others(a) =~= stripped_others(pa));
            assert(stripped_others(b) =~= stripped_others(pb));
        }
    }
}

// ---------------------------------------------------------------------------------------------
// Reading a rewritten block
// ---------------------------------------------------------------------------------------------
/// A body view ready to be terminated and classified: known entries name their directive, no
/// directive has two entries, and other entries hold plain content.
pub open spec fn ready(vs: Seq<(Option<KnownDirective>, Seq<char>)>) -> bool {
    &&& forall|k: int|
        0 <= k < vs.len() && (#[trigger] vs[k]).0 is Some ==> parser::line_directive(vs[k].1) == vs[k].0
    &&& forall|i: int, j: int|
        0 <= i < vs.len() && 0 <= j < vs.len() && (#[trigger] vs[i]).0 is Some && vs[i].0 == (
        #[trigger] vs[j]).0 ==> i == j
    &&& forall|k: int| 0 <= k < vs.len() && (#[trigger] vs[k]).0 is None ==> plain_line(text::strip_term(vs[k].1))
}

/// Writing a plain advanced text over a sound view leaves it ready, with the same known values,
/// and its other lines join back to the text.
proof fn lemma_extras_ready(
    f: Seq<(Option<KnownDirective>, Seq<char>)>,
    m: Seq<(Option<KnownDirective>, Seq<char>)>,
    extra: Seq<char>,
    e: Seq<char>,
    d: KnownDirective,
    r: Option<Seq<char>>,
)
    requires
        sound(f),
        writer::extras_written(f, m, extra, e),
        plain_extra(extra),
        gives(f, d, r),
    ensures
        ready(m),
        gives(m, d, r),
        host::join_lines(stripped_others(m)) == extra,
{
    let cs = stripped_others(f);
    if host::join_lines(cs) == extra {
        assert(m == f);
        lemma_other_views_one_line(f);
        let ov = writer::other_views(f);
        assert forall|j: int| 0 <= j < cs.len() implies !(#[trigger] cs[j]).contains('\n') by {
            assert(cs[j] == text::strip_term(ov[j]));
            lemma_one_line_content(ov[j]);
        }
        assert forall|j: int| 0 <= j < cs.len() implies plain_line(#[trigger] cs[j]) by {
            if extra.len() == 0 {
                lemma_join_empty(cs);
                assert(cs[j] =~= Seq::<char>::empty());
            } else {
                lemma_split_join(cs);
                assert(host::extra_lines(extra) == cs);
            }
        }
        assert forall|k: int| 0 <= k < m.len() && (#[trigger] m[k]).0 is None implies plain_line(text::strip_term(m[k].1)) by {
            lemma_other_views_at(m, k);
            let j = writer::other_views(m.take(k)).len() as int;
            assert(cs[j] == text::strip_term(m[k].1));
        }
    } else {
        lemma_known_transfer(f, m, d, r);
        let xs = host::extra_lines(extra);
        host::lemma_split_nl(extra);
        let ov = writer::other_views(m);
        assert forall|j: int| 0 <= j < ov.len() implies text::strip_term(#[trigger] ov[j]) == xs[j] by {
            assert(writer::has_content(ov[j], xs[j]));
            assert(!xs[j].contains('\n'));
            assert(plain_line(xs[j]));
            lemma_strip_has_content(ov[j], xs[j]);
        }
        assert(stripped_others(m) =~= xs);
        assert forall|k: int| 0 <= k < m.len() && (#[trigger] m[k]).0 is None implies plain_line(text::strip_term(m[k].1)) by {
            lemma_other_views_at(m, k);
            let j = writer::other_views(m.take(k)).len() as int;
            assert(text::strip_term(ov[j]) == xs[j]);
        }
        if extra.len() == 0 {
            assert(xs.len() == 0);
            assert(host::join_lines(xs) == extra);
        }
    }
}

/// Terminating and classifying a ready view: each directive reads back the value the view gives
/// it, and the other lines keep their contents.
proof fn lemma_settled_reads(
    m: Seq<(Option<KnownDirective>, Seq<char>)>,
    e: Seq<char>,
    lines: Seq<BlockLine>,
    d: KnownDirective,
    r: Option<Seq<char>>,
)
    requires
        ready(m),
        e == writer::lf() || e == writer::crlf(),
        parser::well_classified(lines),
        model::body_texts(lines) == writer::terminated(writer::view_texts(m), e),
        gives(m, d, r),
    ensures
        host::known_value(lines, d) == r,
        host::other_texts(lines) == stripped_others(m),
{
    let t = model::body_texts(lines);
    assert(lines.len() == m.len()) by {
        assert(t.len() == lines.len());
    }
    assert forall|k: int| 0 <= k < m.len() implies parser::line_directive(#[trigger] t[k]) == m[k].0 && host::line_value(t[k])
        == host::line_value(m[k].1) && (m[k].0 is None ==> text::strip_term(t[k]) == text::strip_term(m[k].1)) by {
        let mk = m[k].1;
        if m[k].0 is None {
            assert(plain_line(text::strip_term(mk)));
        }
        if k + 1 < m.len() && writer::lacks_newline(mk) {
            assert(t[k] == mk + e);
            lemma_terminate_keeps_meaning(mk, e);
            assert(text::strip_term(mk) == mk);
        } else {
            assert(t[k] == mk);
        }
    }
    let vl = writer::view_lines(lines);
    assert forall|k: int| 0 <= k < m.len() implies (#[trigger] vl[k]).0 == m[k].0 by {
        assert(t[k] == lines[k].raw().0@);
        assert(lines[k] is Known <==> parser::first_occurrence(t, k));
        if m[k].0 is Some {
            assert forall|j: int| 0 <= j < k implies parser::line_directive(#[trigger] t[j]) != parser::line_directive(t[k]) by {
                if parser::line_directive(t[j]) == parser::line_directive(t[k]) {
                    assert(m[j].0 == m[k].0);
                }
            }
            assert(parser::first_occurrence(t, k));
        } else {
            assert(!parser::first_occurrence(t, k));
        }
    }
    match r {
        Some(x) => {
            let k = choose|k: int| 0 <= k < m.len() && (#[trigger] m[k]).0 == Some(d) && host::line_value(m[k].1) == x;
            assert(vl[k].0 == Some(d));
            assert(host::is_first_known(lines, d, k)) by {
                assert forall|j: int| 0 <= j < k implies !(#[trigger] lines[j] matches BlockLine::Known {
                    directive,
                    ..
                } && directive == d) by {
                    assert(vl[j].0 == m[j].0);
                    if vl[j].0 == Some(d) {
                        assert(m[j].0 == m[k].0);
                    }
                }
            }
            host::lemma_known_value_at(lines, d, k);
            assert(t[k] == lines[k].raw().0@);
        },
        None => {
            if host::has_known(lines, d) {
                let c = choose|i: int| host::is_first_known(lines, d, i);
                assert(vl[c].0 == m[c].0);
            }
        },
    }
    writer::lemma_views_split(lines);
    assert forall|k: int| 0 <= k < vl.len() && (#[trigger] vl[k]).0 is None implies text::strip_term(vl[k].1)
        == text::strip_term(m[k].1) by {
        assert(vl[k].1 == t[k]);
    }
    lemma_stripped_others_agree(vl, m);
}

/// A host saved into its block reads back from the block as written: alias, every form field,
/// the port and the advanced text, provided the form's values are clean and no advanced line
/// names a form field or ends with `\r`.
pub proof fn law_rewrite_reads_back(old: ManagedBlock, new: ManagedBlock, h: SshHost)
    requires
        parser::well_classified(old.lines@),
        lines_shaped(old.lines@),
        clean_fields(h),
        plain_extra(h.extra@),
        writer::rewritten(old, new, h),
    ensures
        new.alias@ == h.alias@,
        host::known_value(new.lines@, KnownDirective::HostName) == host::opt_view(h.host_name),
        host::known_value(new.lines@, KnownDirective::User) == host::opt_view(h.user),
        host::port_of(host::known_value(new.lines@, KnownDirective::Port)) == h.port,
        host::known_value(new.lines@, KnownDirective::IdentityFile) == host::opt_view(h.identity_file),
        host::known_value(new.lines@, KnownDirective::ProxyJump) == host::opt_view(h.proxy_jump),
        host::join_lines(host::other_texts(new.lines@)) == h.extra@,
{
    let lines = old.lines@;
    let e = writer::ending_of(writer::renamed_header(old, h));
    let f = writer::fields_written(lines, e, h);
    lemma_fields_sound(lines, e, h);
    let rp = choose|rp: Option<Seq<char>>| gives(f, KnownDirective::Port, rp) && host::port_of(rp) == h.port;
    let m = choose|m: Seq<(Option<KnownDirective>, Seq<char>)>|
        #![trigger writer::extras_written(f, m, h.extra@, e)]
        writer::extras_written(f, m, h.extra@, e) && model::body_texts(new.lines@) == writer::terminated(
            writer::view_texts(m),
            e,
        );
    let nl = new.lines@;
    lemma_extras_ready(f, m, h.extra@, e, KnownDirective::HostName, host::opt_view(h.host_name));
    lemma_settled_reads(m, e, nl, KnownDirective::HostName, host::opt_view(h.host_name));
    lemma_extras_ready(f, m, h.extra@, e, KnownDirective::User, host::opt_view(h.user));
    lemma_settled_reads(m, e, nl, KnownDirective::User, host::opt_view(h.user));
    lemma_extras_ready(f, m, h.extra@, e, KnownDirective::Port, rp);
    lemma_settled_reads(m, e, nl, KnownDirective::Port, rp);
    lemma_extras_ready(f, m, h.extra@, e, KnownDirective::IdentityFile, host::opt_view(h.identity_file));
    lemma_settled_reads(m, e, nl, KnownDirective::IdentityFile, host::opt_view(h.identity_file));
    lemma_extras_ready(f, m, h.extra@, e, KnownDirective::ProxyJump, host::opt_view(h.proxy_jump));
    lemma_settled_reads(m, e, nl, KnownDirective::ProxyJump, host::opt_view(h.proxy_jump));
}

// ---------------------------------------------------------------------------------------------
// Reading a new block
// ---------------------------------------------------------------------------------------------
/// No directive has two known entries.
pub open spec fn unique_known(vs: Seq<(Option<KnownDirective>, Seq<char>)>) -> bool {
    forall|i: int, j: int|
        0 <= i < vs.len() && 0 <= j < vs.len() && (#[trigger] vs[i]).0 is Some && vs[i].0 == (
        #[trigger] vs[j]).0 ==> i == j
}

/// In a body whose view has one entry per directive, a read finds the value the view gives.
proof fn lemma_known_value_from_view(lines: Seq<BlockLine>, d: KnownDirective, r: Option<Seq<char>>)
    requires
        unique_known(writer::view_lines(lines)),
        gives(writer::view_lines(lines), d, r),
    ensures
        host::known_value(lines, d) == r,
{
    let vl = writer::view_lines(lines);
    match r {
        Some(x) => {
            let k = choose|k: int| 0 <= k < vl.len() && (#[trigger] vl[k]).0 == Some(d) && host::line_value(vl[k].1) == x;
            assert(host::is_first_known(lines, d, k)) by {
                assert forall|j: int| 0 <= j < k implies !(#[trigger] lines[j] matches BlockLine::Known {
                    directive,
                    ..
                } && directive == d) by {
                    if vl[j].0 == Some(d) {
                        assert(vl[j].0 == vl[k].0);
                    }
                }
            }
            host::lemma_known_value_at(lines, d, k);
        },
        None => {
            if host::has_known(lines, d) {
                let c = choose|i: int| host::is_first_known(lines, d, i);
                assert(vl[c].0 == Some(d));
            }
        },
    }
}

/// Appending a field line for a directive the view does not set yet.
proof fn lemma_push_field(
    vs: Seq<(Option<KnownDirective>, Seq<char>)>,
    d: KnownDirective,
    v: Option<Seq<char>>,
)
    requires
        unique_known(vs),
        gives(vs, d, None),
        clean_opt(v),
    ensures
        unique_known(vs + writer::field_line(d, v)),
        gives(vs + writer::field_line(d, v), d, v),
        forall|d2: KnownDirective, r: Option<Seq<char>>|
            d2 != d && #[trigger] gives(vs, d2, r) ==> gives(vs + writer::field_line(d, v), d2, r),
{
    let res = vs + writer::field_line(d, v);
    match v {
        Some(x) => {
            lemma_new_known_meaning(d, x, writer::lf());
            assert(res == vs.push((Some(d), writer::new_known_text(d, x, writer::lf()))));
            assert(res[vs.len() as int].0 == Some(d));
            assert forall|k: int| 0 <= k < vs.len() implies #[trigger] res[k] == vs[k] by {}
            assert forall|d2: KnownDirective, r: Option<Seq<char>>|
                d2 != d && #[trigger] gives(vs, d2, r) implies gives(res, d2, r) by {
                match r {
                    Some(y) => {
                        let k = choose|k: int| 0 <= k < vs.len() && (#[trigger] vs[k]).0 == Some(d2) && host::line_value(vs[k].1) == y;
                        assert(res[k] == vs[k]);
                    },
                    None => {
                        assert forall|k: int| 0 <= k < res.len() implies (#[trigger] res[k]).0 != Some(d2) by {
                            if k < vs.len() {
                                assert(res[k] == vs[k]);
                            }
                        }
                    },
                }
            }
            assert forall|i: int, j: int|
                0 <= i < res.len() && 0 <= j < res.len() && (#[trigger] res[i]).0 is Some && res[i].0 == (#[trigger] res[j]).0 implies i == j by {
                if i < vs.len() && j < vs.len() {
                    assert(res[i] == vs[i] && res[j] == vs[j]);
                } else if i < vs.len() {
                    assert(res[i] == vs[i]);
                } else if j < vs.len() {
                    assert(res[j] == vs[j]);
                }
            }
        },
        None => {
            assert(res =~= vs);
        },
    }
}

/// Appending entries that set nothing keeps every value and the uniqueness.
proof fn lemma_append_others(
    vs: Seq<(Option<KnownDirective>, Seq<char>)>,
    xs: Seq<(Option<KnownDirective>, Seq<char>)>,
    d: KnownDirective,
    r: Option<Seq<char>>,
)
    requires
        unique_known(vs),
        gives(vs, d, r),
        forall|k: int| 0 <= k < xs.len() ==> (#[trigger] xs[k]).0 is None,
    ensures
        unique_known(vs + xs),
        gives(vs + xs, d, r),
{
    let res = vs + xs;
    assert forall|k: int| 0 <= k < res.len() implies #[trigger] res[k] == if k < vs.len() { vs[k] } else { xs[k - vs.len()] } by {}
    match r {
        Some(y) => {
            let k = choose|k: int| 0 <= k < vs.len() && (#[trigger] vs[k]).0 == Some(d) && host::line_value(vs[k].1) == y;
            assert(res[k] == vs[k]);
        },
        None => {
            assert forall|k: int| 0 <= k < res.len() implies (#[trigger] res[k]).0 != Some(d) by {
                if k >= vs.len() {
                    assert(xs[k - vs.len()].0 is None);
                }
            }
        },
    }
    assert forall|i: int, j: int|
        0 <= i < res.len() && 0 <= j < res.len() && (#[trigger] res[i]).0 is Some && res[i].0 == (#[trigger] res[j]).0 implies i == j by {
        if i >= vs.len() {
            assert(xs[i - vs.len()].0 is None);
        }
        if j >= vs.len() {
            assert(xs[j - vs.len()].0 is None);
        }
    }
}

/// The other entries of `a + b` are those of `a`, then those of `b`.
proof fn lemma_other_views_concat(a: Seq<(Option<KnownDirective>, Seq<char>)>, b: Seq<(Option<KnownDirective>, Seq<char>)>)
    ensures
        writer::other_views(a + b) == writer::other_views(a) + writer::other_views(b),
    decreases b.len(),
{
    if b.len() == 0 {
        assert(a + b =~= a);
        assert(writer::other_views(b) =~= Seq::<Seq<char>>::empty());
        assert(writer::other_views(a) + writer::other_views(b) =~= writer::other_views(a));
    } else {
        lemma_other_views_concat(a, b.drop_last());
        assert((a + b).drop_last() =~= a + b.drop_last());
        assert((a + b).last() == b.last());
        if b.last().0 is None {
            assert(writer::other_views(a) + writer::other_views(b) =~= (writer::other_views(a) + writer::other_views(b.drop_last())).push(b.last().1));
        } else {
            assert(writer::other_views(a) + writer::other_views(b) =~= writer::other_views(a) + writer::other_views(b.drop_last()));
        }
    }
}

/// A view of known entries only has no other entries.
proof fn lemma_other_views_none(vs: Seq<(Option<KnownDirective>, Seq<char>)>)
    requires
        forall|k: int| 0 <= k < vs.len() ==> (#[trigger] vs[k]).0 is Some,
    ensures
        writer::other_views(vs) == Seq::<Seq<char>>::empty(),
    decreases vs.len(),
{
    if vs.len() > 0 {
        let p = vs.drop_last();
        assert forall|k: int| 0 <= k < p.len() implies (#[trigger] p[k]).0 is Some by {
            assert(p[k] == vs[k]);
        }
        lemma_other_views_none(p);
        assert(vs[vs.len() - 1].0 is Some);
    }
}

/// The advanced entries of a new block are its lines, each ended by `\n`.
proof fn lemma_other_views_lines(xs: Seq<Seq<char>>)
    ensures
        writer::other_views(xs.map_values(|p: Seq<char>| (None::<KnownDirective>, p + writer::lf())))
            == xs.map_values(|p: Seq<char>| p + writer::lf()),
    decreases xs.len(),
{
    let vs = xs.map_values(|p: Seq<char>| (None::<KnownDirective>, p + writer::lf()));
    if xs.len() > 0 {
        let p = xs.drop_last();
        lemma_other_views_lines(p);
        assert(vs.drop_last() =~= p.map_values(|q: Seq<char>| (None::<KnownDirective>, q + writer::lf())));
        assert(vs.last() == (None::<KnownDirective>, xs.last() + writer::lf()));
        assert(xs.map_values(|q: Seq<char>| q + writer::lf()) =~= p.map_values(|q: Seq<char>| q + writer::lf()).push(xs.last() + writer::lf()));
    } else {
        assert(vs =~= Seq::<(Option<KnownDirective>, Seq<char>)>::empty());
        assert(xs.map_values(|q: Seq<char>| q + writer::lf()) =~= Seq::<Seq<char>>::empty());
    }
}

/// The form lines of a new block.
pub open spec fn new_fields(h: SshHost) -> Seq<(Option<KnownDirective>, Seq<char>)> {
    writer::field_line(KnownDirective::HostName, host::opt_view(h.host_name)) + writer::field_line(
        KnownDirective::User,
        host::opt_view(h.user),
    ) + writer::field_line(KnownDirective::Port, writer::port_text(h.port)) + writer::field_line(
        KnownDirective::IdentityFile,
        host::opt_view(h.identity_file),
    ) + writer::field_line(KnownDirective::ProxyJump, host::opt_view(h.proxy_jump))
}

/// The form lines of a new block give each field its value, one line per directive.
proof fn lemma_new_fields_give(h: SshHost)
    requires
        clean_fields(h),
    ensures
        unique_known(new_fields(h)),
        forall|k: int| 0 <= k < new_fields(h).len() ==> (#[trigger] new_fields(h)[k]).0 is Some,
        gives(new_fields(h), KnownDirective::HostName, host::opt_view(h.host_name)),
        gives(new_fields(h), KnownDirective::User, host::opt_view(h.user)),
        gives(new_fields(h), KnownDirective::Port, writer::port_text(h.port)),
        gives(new_fields(h), KnownDirective::IdentityFile, host::opt_view(h.identity_file)),
        gives(new_fields(h), KnownDirective::ProxyJump, host::opt_view(h.proxy_jump)),
{
    let pt = writer::port_text(h.port);
    lemma_port_text_reads_back(h.port);
    let e0 = Seq::<(Option<KnownDirective>, Seq<char>)>::empty();
    let f1 = writer::field_line(KnownDirective::HostName, host::opt_view(h.host_name));
    let f2 = writer::field_line(KnownDirective::User, host::opt_view(h.user));
    let f3 = writer::field_line(KnownDirective::Port, pt);
    let f4 = writer::field_line(KnownDirective::IdentityFile, host::opt_view(h.identity_file));
    let f5 = writer::field_line(KnownDirective::ProxyJump, host::opt_view(h.proxy_jump));
    let v1 = e0 + f1;
    let v2 = v1 + f2;
    let v3 = v2 + f3;
    let v4 = v3 + f4;
    let v5 = v4 + f5;
    assert(e0 + f1 =~= f1);
    assert(v5 =~= new_fields(h));
    lemma_push_field(e0, KnownDirective::HostName, host::opt_view(h.host_name));
    lemma_push_field(v1, KnownDirective::User, host::opt_view(h.user));
    lemma_push_field(v2, KnownDirective::Port, pt);
    lemma_push_field(v3, KnownDirective::IdentityFile, host::opt_view(h.identity_file));
    lemma_push_field(v4, KnownDirective::ProxyJump, host::opt_view(h.proxy_jump));
    assert forall|k: int| 0 <= k < v5.len() implies (#[trigger] v5[k]).0 is Some by {}
}

/// A new block reads back as the host it was built from: every form field, the port and the
/// advanced text, provided the values are clean and no advanced line names a form field or
/// ends with `\r`.
pub proof fn law_new_block_reads_back(h: SshHost, b: ManagedBlock)
    requires
        writer::view_lines(b.lines@) == writer::new_block_views(h),
        clean_fields(h),
        plain_extra(h.extra@),
    ensures
        host::known_value(b.lines@, KnownDirective::HostName) == host::opt_view(h.host_name),
        host::known_value(b.lines@, KnownDirective::User) == host::opt_view(h.user),
        host::port_of(host::known_value(b.lines@, KnownDirective::Port)) == h.port,
        host::known_value(b.lines@, KnownDirective::IdentityFile) == host::opt_view(h.identity_file),
        host::known_value(b.lines@, KnownDirective::ProxyJump) == host::opt_view(h.proxy_jump),
        host::join_lines(host::other_texts(b.lines@)) == h.extra@,
{
    let pt = writer::port_text(h.port);
    lemma_port_text_reads_back(h.port);
    let nf = new_fields(h);
    lemma_new_fields_give(h);
    let xs = host::extra_lines(h.extra@);
    let xv = xs.map_values(|p: Seq<char>| (None::<KnownDirective>, p + writer::lf()));
    assert(writer::new_block_views(h) == nf + xv);
    assert forall|k: int| 0 <= k < xv.len() implies (#[trigger] xv[k]).0 is None by {}
    let lines = b.lines@;
    lemma_append_others(nf, xv, KnownDirective::HostName, host::opt_view(h.host_name));
    lemma_known_value_from_view(lines, KnownDirective::HostName, host::opt_view(h.host_name));
    lemma_append_others(nf, xv, KnownDirective::User, host::opt_view(h.user));
    lemma_known_value_from_view(lines, KnownDirective::User, host::opt_view(h.user));
    lemma_append_others(nf, xv, KnownDirective::Port, pt);
    lemma_known_value_from_view(lines, KnownDirective::Port, pt);
    lemma_append_others(nf, xv, KnownDirective::IdentityFile, host::opt_view(h.identity_file));
    lemma_known_value_from_view(lines, KnownDirective::IdentityFile, host::opt_view(h.identity_file));
    lemma_append_others(nf, xv, KnownDirective::ProxyJump, host::opt_view(h.proxy_jump));
    lemma_known_value_from_view(lines, KnownDirective::ProxyJump, host::opt_view(h.proxy_jump));
    lemma_new_block_others(h, lines);
}

/// The advanced text of a new block reads back.
proof fn lemma_new_block_others(h: SshHost, lines: Seq<BlockLine>)
    requires
        writer::view_lines(lines) == writer::new_block_views(h),
        clean_fields(h),
        plain_extra(h.extra@),
    ensures
        host::join_lines(host::other_texts(lines)) == h.extra@,
{
    let nf = new_fields(h);
    lemma_new_fields_give(h);
    let xs = host::extra_lines(h.extra@);
    let xv = xs.map_values(|p: Seq<char>| (None::<KnownDirective>, p + writer::lf()));
    assert(writer::new_block_views(h) == nf + xv);
    lemma_other_views_none(nf);
    lemma_other_views_concat(nf, xv);
    lemma_other_views_lines(xs);
    writer::lemma_views_split(lines);
    host::lemma_split_nl(h.extra@);
    let ov = writer::other_views(writer::view_lines(lines));
    assert(ov =~= xs.map_values(|p: Seq<char>| p + writer::lf()));
    assert(host::other_texts(lines) =~= xs) by {
        assert forall|k: int| 0 <= k < xs.len() implies #[trigger] text::strip_term(ov[k]) == xs[k] by {
            assert(ov[k] == xs[k] + writer::lf());
            assert(plain_line(xs[k]));
            assert(!xs[k].contains('\n'));
            assert(writer::has_content(xs[k] + writer::lf(), xs[k])) by {
                assert((xs[k] + writer::lf()).take(xs[k].len() as int) == xs[k]);
                assert((xs[k] + writer::lf()).skip(xs[k].len() as int) == writer::lf());
            }
            lemma_strip_has_content(xs[k] + writer::lf(), xs[k]);
        }
    }
    if h.extra@.len() == 0 {
        assert(xs.len() == 0);
    }
}

// ---------------------------------------------------------------------------------------------
// Reading a saved document
// ---------------------------------------------------------------------------------------------
/// Block `b` reads back as host `h`: its alias, each form field, the port and the advanced text.
pub open spec fn reads_back(b: ManagedBlock, h: SshHost) -> bool {
    &&& b.alias@ == h.alias@
    &&& host::known_value(b.lines@, KnownDirective::HostName) == host::opt_view(h.host_name)
    &&& host::known_value(b.lines@, KnownDirective::User) == host::opt_view(h.user)
    &&& host::port_of(host::known_value(b.lines@, KnownDirective::Port)) == h.port
    &&& host::known_value(b.lines@, KnownDirective::IdentityFile) == host::opt_view(h.identity_file)
    &&& host::known_value(b.lines@, KnownDirective::ProxyJump) == host::opt_view(h.proxy_jump)
    &&& host::join_lines(host::other_texts(b.lines@)) == h.extra@
}

/// Every managed block of a document is classified and its lines hold no `\n` but at their end.
pub open spec fn editable(segs: Seq<Segment>) -> bool {
    forall|i: int|
        0 <= i < segs.len() && (#[trigger] segs[i]) is Managed ==> parser::well_classified(
            segs[i]->Managed_0.lines@,
        ) && lines_shaped(segs[i]->Managed_0.lines@)
}

/// A parsed document is editable.
pub proof fn lemma_parsed_editable(segs: Seq<Segment>, t: Seq<char>)
    requires
        parser::well_parsed(segs),
        parser::is_line_split(model::segment_texts(segs), t),
    ensures
        editable(segs),
{
    assert forall|i: int| 0 <= i < segs.len() && (#[trigger] segs[i]) is Managed implies parser::well_classified(
        segs[i]->Managed_0.lines@,
    ) && lines_shaped(segs[i]->Managed_0.lines@) by {
        assert(parser::segment_ok(segs[i]));
        let b = segs[i]->Managed_0;
        let st = segs.map_values(|s: Segment| s.texts());
        let tt = model::segment_texts(segs);
        let x = st.take(i);
        let y = st.skip(i + 1);
        assert(st == x + seq![st[i]] + y);
        vstd::seq_lib::lemma_flatten_concat(x + seq![st[i]], y);
        vstd::seq_lib::lemma_flatten_concat(x, seq![st[i]]);
        assert(seq![st[i]].flatten() == st[i]) by {
            seq![st[i]].lemma_flatten_one_element();
        }
        let off = x.flatten().len();
        let bt = st[i];
        assert(bt == b.texts());
        assert(tt == x.flatten() + bt + y.flatten());
        assert forall|k: int| 0 <= k < b.lines.len() implies one_line(#[trigger] b.lines@[k].raw().0@) by {
            assert(bt[k + 1] == b.lines@[k].raw().0@);
            assert(tt[off + k + 1] == bt[k + 1]);
            let l = tt[off + k + 1];
            assert forall|j: int| 0 <= j < l.len() - 1 implies l[j] != '\n' by {
                assert(tt[off + k + 1][j] != '\n');
            }
        }
    }
}

/// Saving a host into an editable document leaves a managed block for its alias, the first
/// one, that reads back as the host, provided the host's values are clean and no advanced line
/// names a form field or ends with `\r`.
pub proof fn law_upsert_reads_back(segs: Seq<Segment>, new: Seq<Segment>, h: SshHost)
    requires
        editable(segs),
        clean_fields(h),
        plain_extra(h.extra@),
        writer::upserted(segs, new, h),
    ensures
        exists|i: int|
            writer::is_first_managed(new, h.alias@, i) && #[trigger] reads_back(new[i]->Managed_0, h),
{
    if writer::has_managed(segs, h.alias@) {
        writer::lemma_has_first_managed(segs, h.alias@);
        let i = choose|i: int| writer::is_first_managed(segs, h.alias@, i);
        assert(segs[i] is Managed);
        law_rewrite_reads_back(segs[i]->Managed_0, new[i]->Managed_0, h);
        assert forall|j: int| 0 <= j < i implies !writer::is_managed_alias(#[trigger] new[j], h.alias@) by {
            assert(new[j] == segs[j]);
        }
        assert(writer::is_first_managed(new, h.alias@, i));
        assert(reads_back(new[i]->Managed_0, h));
    } else {
        let n = new.len() - 1;
        let b = new[n]->Managed_0;
        assert(new.last() == new[n]);
        law_new_block_reads_back(h, b);
        assert forall|j: int| 0 <= j < n implies !writer::is_managed_alias(#[trigger] new[j], h.alias@) by {
            if writer::is_managed_alias(new[j], h.alias@) {
                assert(new.drop_last()[j] == new[j]);
                assert(writer::has_managed(new.drop_last(), h.alias@));
            }
        }
        assert(writer::is_first_managed(new, h.alias@, n));
        assert(reads_back(new[n]->Managed_0, h));
    }
}

// ---------------------------------------------------------------------------------------------
// Unchanged fields
// ---------------------------------------------------------------------------------------------
/// The view has an entry for `d` with text `t`.
pub open spec fn has_entry(vs: Seq<(Option<KnownDirective>, Seq<char>)>, d: KnownDirective, t: Seq<char>) -> bool {
    exists|k: int| 0 <= k < vs.len() && #[trigger] vs[k] == (Some(d), t)
}

/// Setting or clearing one directive leaves every other directive's lines as they are.
proof fn lemma_applied_keeps_entries(
    vs: Seq<(Option<KnownDirective>, Seq<char>)>,
    e: Seq<char>,
    d: KnownDirective,
    v: Option<Seq<char>>,
)
    ensures
        forall|d2: KnownDirective, t: Seq<char>|
            d2 != d && #[trigger] has_entry(vs, d2, t) ==> has_entry(writer::applied(vs, e, d, v), d2, t),
{
    let res = writer::applied(vs, e, d, v);
    assert forall|d2: KnownDirective, t: Seq<char>| d2 != d && #[trigger] has_entry(vs, d2, t) implies has_entry(res, d2, t) by {
        let k = choose|k: int| 0 <= k < vs.len() && #[trigger] vs[k] == (Some(d2), t);
        if writer::sets(vs, d) {
            let i = choose|i: int| writer::sets_at(vs, d, i);
            assert(k != i);
            match v {
                None => {
                    let k2 = if k < i { k } else { k - 1 };
                    assert(res[k2] == vs[k]);
                },
                Some(x) => {
                    assert(res[k] == vs[k]);
                },
            }
        } else {
            match v {
                None => {
                    assert(res[k] == vs[k]);
                },
                Some(x) => {
                    let p = writer::set_point(vs);
                    assert(0 <= p <= vs.len()) by {
                        if exists|i: int| writer::last_set_at(vs, i) {
                            let c = choose|i: int| writer::last_set_at(vs, i);
                            assert(writer::last_set_at(vs, c));
                        }
                    }
                    let k2 = if k < p { k } else { k + 1 };
                    assert(res[k2] == vs[k]);
                },
            }
        }
    }
}

/// A field step for another directive, or one that changes nothing, keeps `d`'s lines.
proof fn lemma_field_step_keeps(
    vs: Seq<(Option<KnownDirective>, Seq<char>)>,
    e: Seq<char>,
    d2: KnownDirective,
    held: Option<Seq<char>>,
    wanted: Option<Seq<char>>,
    d: KnownDirective,
    t: Seq<char>,
)
    requires
        has_entry(vs, d, t),
        d2 != d || held == wanted,
    ensures
        has_entry(writer::field_step(vs, e, d2, held, wanted), d, t),
{
    if held != wanted {
        lemma_applied_keeps_entries(vs, e, d2, wanted);
    }
}

/// What the form holds for `d`, as the block's line would spell it.
pub open spec fn form_value(h: SshHost, d: KnownDirective) -> Option<Seq<char>> {
    match d {
        KnownDirective::HostName => host::opt_view(h.host_name),
        KnownDirective::User => host::opt_view(h.user),
        KnownDirective::Port => writer::port_text(h.port),
        KnownDirective::IdentityFile => host::opt_view(h.identity_file),
        KnownDirective::ProxyJump => host::opt_view(h.proxy_jump),
    }
}

/// What the block holds for `d`, read the way the form reads it.
pub open spec fn held_value(lines: Seq<BlockLine>, d: KnownDirective) -> Option<Seq<char>> {
    match d {
        KnownDirective::Port => writer::port_text(host::port_of(host::known_value(lines, d))),
        _ => host::known_value(lines, d),
    }
}

/// Saving a host whose value for a field is what the block already holds leaves that field's
/// line as it was, byte for byte: it only gains a terminator where it had none and lines now
/// follow it. This holds whatever else changes, provided the form's values are clean and no
/// advanced line names a form field or ends with `\r`.
pub proof fn law_unchanged_field_keeps_its_line(old: ManagedBlock, new: ManagedBlock, h: SshHost, d: KnownDirective)
    requires
        parser::well_classified(old.lines@),
        lines_shaped(old.lines@),
        clean_fields(h),
        plain_extra(h.extra@),
        writer::rewritten(old, new, h),
        host::has_known(old.lines@, d),
        form_value(h, d) == held_value(old.lines@, d),
    ensures
        host::has_known(new.lines@, d),
        ({
            let i = choose|i: int| host::is_first_known(old.lines@, d, i);
            let j = choose|j: int| host::is_first_known(new.lines@, d, j);
            let t = old.lines@[i].raw().0@;
            let u = new.lines@[j].raw().0@;
            u == t || (writer::lacks_newline(t) && u == t + writer::ending_of(
                writer::renamed_header(old, h),
            ))
        }),
{
    let lines = old.lines@;
    let e = writer::ending_of(writer::renamed_header(old, h));
    let i = choose|i: int| host::is_first_known(lines, d, i);
    let t = lines[i].raw().0@;
    let v0 = writer::view_lines(lines);
    assert(v0[i] == (Some(d), t));
    assert(has_entry(v0, d, t));
    let kv = |x: KnownDirective| host::known_value(lines, x);
    let held_port = writer::port_text(host::port_of(kv(KnownDirective::Port)));
    let wanted_port = writer::port_text(h.port);
    let v1 = writer::field_step(v0, e, KnownDirective::HostName, kv(KnownDirective::HostName), host::opt_view(h.host_name));
    lemma_field_step_keeps(v0, e, KnownDirective::HostName, kv(KnownDirective::HostName), host::opt_view(h.host_name), d, t);
    let v2 = writer::field_step(v1, e, KnownDirective::User, kv(KnownDirective::User), host::opt_view(h.user));
    lemma_field_step_keeps(v1, e, KnownDirective::User, kv(KnownDirective::User), host::opt_view(h.user), d, t);
    let v3 = writer::field_step(v2, e, KnownDirective::Port, held_port, wanted_port);
    lemma_field_step_keeps(v2, e, KnownDirective::Port, held_port, wanted_port, d, t);
    let v4 = writer::field_step(v3, e, KnownDirective::IdentityFile, kv(KnownDirective::IdentityFile), host::opt_view(h.identity_file));
    lemma_field_step_keeps(v3, e, KnownDirective::IdentityFile, kv(KnownDirective::IdentityFile), host::opt_view(h.identity_file), d, t);
    lemma_field_step_keeps(v4, e, KnownDirective::ProxyJump, kv(KnownDirective::ProxyJump), host::opt_view(h.proxy_jump), d, t);
    let f = writer::fields_written(lines, e, h);
    assert(has_entry(f, d, t));
    lemma_fields_sound(lines, e, h);
    let m = choose|m: Seq<(Option<KnownDirective>, Seq<char>)>|
        #![trigger writer::extras_written(f, m, h.extra@, e)]
        writer::extras_written(f, m, h.extra@, e) && model::body_texts(new.lines@) == writer::terminated(
            writer::view_texts(m),
            e,
        );
    assert(gives(f, d, Some(host::line_value(t)))) by {
        let k0 = choose|k0: int| 0 <= k0 < f.len() && #[trigger] f[k0] == (Some(d), t);
        assert(f[k0].0 == Some(d) && host::line_value(f[k0].1) == host::line_value(t));
    }
    lemma_extras_ready(f, m, h.extra@, e, d, Some(host::line_value(t)));
    assert(has_entry(m, d, t)) by {
        let k = choose|k: int| 0 <= k < f.len() && #[trigger] f[k] == (Some(d), t);
        if m != f {
            lemma_known_views_at(f, k);
            let jj = writer::known_views(f.take(k)).len() as int;
            lemma_known_views_from(m, jj);
            let k2 = choose|k2: int|
                0 <= k2 < m.len() && m[k2].0 is Some && writer::known_views(m.take(k2)).len() == jj
                    && #[trigger] m[k2] == writer::known_views(m)[jj];
            assert(m[k2] == f[k]);
        } else {
            assert(m[k] == f[k]);
        }
    }
    let k = choose|k: int| 0 <= k < m.len() && #[trigger] m[k] == (Some(d), t);
    let nl = new.lines@;
    lemma_settled_reads(m, e, nl, d, Some(host::line_value(t)));
    let vl = writer::view_lines(nl);
    let tt = model::body_texts(nl);
    assert(nl.len() == m.len()) by {
        assert(tt.len() == nl.len());
    }
    assert(vl[k].0 == Some(d)) by {
        assert(tt[k] == nl[k].raw().0@);
        assert(nl[k] is Known <==> parser::first_occurrence(tt, k));
        let mk = m[k].1;
        if k + 1 < m.len() && writer::lacks_newline(mk) {
            lemma_terminate_keeps_meaning(mk, e);
        }
        assert(parser::line_directive(tt[k]) == Some(d));
        assert forall|j2: int| 0 <= j2 < k implies parser::line_directive(#[trigger] tt[j2]) != parser::line_directive(tt[k]) by {
            let mj = m[j2].1;
            if j2 + 1 < m.len() && writer::lacks_newline(mj) {
                lemma_terminate_keeps_meaning(mj, e);
            }
            if m[j2].0 is None {
                assert(plain_line(text::strip_term(mj)));
            }
            if parser::line_directive(tt[j2]) == parser::line_directive(tt[k]) {
                assert(m[j2].0 == m[k].0);
            }
        }
    }
    assert(host::is_first_known(nl, d, k)) by {
        assert forall|j2: int| 0 <= j2 < k implies !(#[trigger] nl[j2] matches BlockLine::Known {
            directive,
            ..
        } && directive == d) by {
            if vl[j2].0 == Some(d) {
                let mj = m[j2].1;
                assert(tt[j2] == nl[j2].raw().0@);
                assert(nl[j2] is Known <==> parser::first_occurrence(tt, j2));
                if j2 + 1 < m.len() && writer::lacks_newline(mj) {
                    lemma_terminate_keeps_meaning(mj, e);
                }
                if m[j2].0 is None {
                    assert(plain_line(text::strip_term(mj)));
                }
                assert(m[j2].0 == m[k].0);
            }
        }
    }
    let j = choose|j: int| host::is_first_known(nl, d, j);
    host::lemma_first_known_unique(nl, d, j, k);
    host::lemma_first_known_unique(lines, d, i, choose|i2: int| host::is_first_known(lines, d, i2));
    assert(tt[k] == nl[k].raw().0@);
}

} // verus!
