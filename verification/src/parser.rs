//! Line-based parsing of `~/.ssh/config` that preserves the input text exactly.
//!
//! Every line is kept verbatim, including its own line terminator (or the lack of one, for a
//! final line with no trailing newline). A [`Segment`] is nothing more than an ordered slice of
//! those lines, so re-rendering the parsed structure with no edits reproduces the input
//! character for character.
use vstd::prelude::*;
use vstd::string::StringExecFns;

use crate::model::{self, BlockLine, KnownDirective, ManagedBlock, RawLine, Segment};
use crate::text::{
    self, chars_of, content_len, range_all_ws, range_eq_ic, skip_token, skip_ws, split_words,
    string_of, string_of_range,
};

verus! {

/// What a line means for block boundaries.
pub enum LineKind {
    HostHeader(Vec<String>),
    MatchHeader,
    Other,
}

// ---------------------------------------------------------------------------------------------
// Specification
// ---------------------------------------------------------------------------------------------
/// `lines` is `text` cut after every `\n`: no line is empty, only a line's last character can
/// be `\n`, and every line but the last ends with one.
pub open spec fn is_line_split(lines: Seq<Seq<char>>, text: Seq<char>) -> bool {
    &&& lines.flatten() == text
    &&& forall|i: int| 0 <= i < lines.len() ==> #[trigger] lines[i].len() > 0
    &&& forall|i: int, j: int|
        0 <= i < lines.len() && 0 <= j < lines[i].len() - 1 ==> #[trigger] lines[i][j] != '\n'
    &&& forall|i: int| 0 <= i < lines.len() - 1 ==> #[trigger] lines[i].last() == '\n'
}

/// The first word of a line's content.
pub open spec fn leading_word(c: Seq<char>) -> Seq<char> {
    let t = text::trim_start(c);
    t.take(text::token_len(t) as int)
}

/// The content is neither blank nor a comment.
pub open spec fn is_directive(c: Seq<char>) -> bool {
    let t = text::trim_start(c);
    t.len() > 0 && t[0] != '#'
}

pub open spec fn host_word() -> Seq<char> {
    seq!['h', 'o', 's', 't']
}

pub open spec fn match_word() -> Seq<char> {
    seq!['m', 'a', 't', 'c', 'h']
}

/// The content is a `Host` line (keyword compared without regard to ASCII case).
pub open spec fn is_host_header(c: Seq<char>) -> bool {
    is_directive(c) && text::eq_ic(leading_word(c), host_word())
}

/// The content is a `Match` line.
pub open spec fn is_match_header(c: Seq<char>) -> bool {
    is_directive(c) && text::eq_ic(leading_word(c), match_word())
}

/// The whitespace-separated words after the keyword.
pub open spec fn header_patterns(c: Seq<char>) -> Seq<Seq<char>> {
    let t = text::trim_start(c);
    text::words(t.skip(text::token_len(t) as int))
}

/// A line (with its terminator) that opens a `Host` or `Match` block.
pub open spec fn starts_block(l: Seq<char>) -> bool {
    is_host_header(text::strip_term(l)) || is_match_header(text::strip_term(l))
}

/// A line whose content is only whitespace.
pub open spec fn is_blank(l: Seq<char>) -> bool {
    text::all_ws(text::strip_term(l))
}

pub open spec fn is_wildcard(p: Seq<char>) -> bool {
    p.contains('*') || p.contains('?') || (p.len() > 0 && p[0] == '!')
}

/// Exactly one pattern, without glob or negation characters.
pub open spec fn single_plain(ps: Seq<Seq<char>>) -> bool {
    ps.len() == 1 && !is_wildcard(ps[0])
}

/// A line that opens a block this library manages.
pub open spec fn is_managed_header(l: Seq<char>) -> bool {
    is_host_header(text::strip_term(l)) && single_plain(header_patterns(text::strip_term(l)))
}

/// The known directive a body line sets, if any.
pub open spec fn line_directive(l: Seq<char>) -> Option<KnownDirective> {
    let c = text::strip_term(l);
    if is_directive(c) {
        KnownDirective::named(leading_word(c))
    } else {
        None
    }
}

/// Line `i` sets a known directive that no earlier line sets.
pub open spec fn first_occurrence(texts: Seq<Seq<char>>, i: int) -> bool {
    &&& line_directive(texts[i]) is Some
    &&& forall|j: int| 0 <= j < i ==> line_directive(#[trigger] texts[j]) != line_directive(texts[i])
}

/// Exactly the first occurrence of each known directive is `Known`, tagged with its directive.
pub open spec fn well_classified(lines: Seq<BlockLine>) -> bool {
    forall|i: int|
        0 <= i < lines.len() ==> {
            &&& (#[trigger] lines[i] is Known <==> first_occurrence(model::body_texts(lines), i))
            &&& (lines[i] is Known ==> Some(lines[i]->directive) == line_directive(
                lines[i].raw().0@,
            ))
        }
}

pub open spec fn managed_ok(b: ManagedBlock) -> bool {
    &&& is_managed_header(b.header.0@)
    &&& header_patterns(text::strip_term(b.header.0@)) == seq![b.alias@]
    &&& well_classified(b.lines@)
    &&& forall|i: int| 0 <= i < b.lines.len() ==> !starts_block(#[trigger] b.lines@[i].raw().0@)
    &&& b.lines.len() > 0 ==> !is_blank(b.lines@.last().raw().0@)
}

pub open spec fn raw_ok(ls: Seq<RawLine>) -> bool {
    &&& ls.len() > 0
    &&& !is_managed_header(ls[0].0@)
    &&& forall|i: int| 1 <= i < ls.len() ==> !starts_block(#[trigger] ls[i].0@)
}

pub open spec fn segment_ok(s: Segment) -> bool {
    match s {
        Segment::Raw(ls) => raw_ok(ls@),
        Segment::Managed(b) => managed_ok(b),
    }
}

pub open spec fn opens_block(s: Segment) -> bool {
    match s {
        Segment::Raw(ls) => ls.len() > 0 && starts_block(ls[0].0@),
        Segment::Managed(_) => true,
    }
}

pub open spec fn blank_run(s: Segment) -> bool {
    match s {
        Segment::Raw(ls) => forall|i: int| 0 <= i < ls.len() ==> is_blank(#[trigger] ls@[i].0@),
        Segment::Managed(_) => false,
    }
}

/// Segment `next` may come right after `prev`: it opens a block, or it is the run of blank
/// lines that trailed the managed block `prev`.
pub open spec fn follows(prev: Segment, next: Segment) -> bool {
    opens_block(next) || (prev is Managed && blank_run(next))
}

/// Every segment is well formed and cut where the parser cuts: a run of lines that opens no
/// block only starts the document or holds the blank lines that trailed a managed block.
pub open spec fn well_parsed(segs: Seq<Segment>) -> bool {
    &&& forall|i: int| 0 <= i < segs.len() ==> segment_ok(#[trigger] segs[i])
    &&& forall|i: int| 0 < i < segs.len() ==> follows(segs[i - 1], #[trigger] segs[i])
}

// ---------------------------------------------------------------------------------------------
// Implementation
// ---------------------------------------------------------------------------------------------
fn clone_lines(lines: &Vec<RawLine>, lo: usize, hi: usize) -> (r: Vec<RawLine>)
    requires
        lo <= hi <= lines@.len(),
    ensures
        r@ == lines@.subrange(lo as int, hi as int),
{
    let mut r: Vec<RawLine> = Vec::new();
    let mut k = lo;
    while k < hi
        invariant
            lo <= k <= hi <= lines@.len(),
            r@ == lines@.subrange(lo as int, k as int),
        decreases hi - k,
    {
        r.push(lines[k].dup());
        k += 1;
    }
    r
}

/// Split `text` into lines that each retain their own trailing `\n` (or nothing, for a final
/// line without one). Concatenating every returned line reproduces `text` exactly.
pub fn split_raw_lines(text: &str) -> (lines: Vec<RawLine>)
    ensures
        is_line_split(model::line_texts(lines@), text@),
{
    broadcast use Seq::lemma_flatten_push;

    let v = chars_of(text);
    let mut lines: Vec<RawLine> = Vec::new();
    let mut start: usize = 0;
    let mut i: usize = 0;
    while i < v.len()
        invariant
            start <= i <= v@.len(),
            model::line_texts(lines@).flatten() == v@.take(start as int),
            forall|k: int| 0 <= k < lines.len() ==> #[trigger] lines@[k].0@.len() > 0,
            forall|k: int| 0 <= k < lines.len() ==> #[trigger] lines@[k].0@.last() == '\n',
            forall|k: int, j: int|
                0 <= k < lines.len() && 0 <= j < lines@[k].0@.len() - 1 ==> #[trigger] lines@[k].0@[j]
                    != '\n',
            forall|j: int| start <= j < i ==> #[trigger] v@[j] != '\n',
        decreases v.len() - i,
    {
        if v[i] == '\n' {
            let piece = string_of_range(&v, start, i + 1);
            let ghost before = lines@;
            lines.push(RawLine(piece));
            assert(model::line_texts(lines@) == model::line_texts(before).push(piece@));
            proof {
                model::line_texts(before).lemma_flatten_push(piece@);
            }
            assert(v@.take(start as int) + v@.subrange(start as int, i + 1) == v@.take(i + 1));
            start = i + 1;
        }
        i += 1;
    }
    if start < v.len() {
        let piece = string_of_range(&v, start, v.len());
        let ghost before = lines@;
        lines.push(RawLine(piece));
        assert(model::line_texts(lines@) == model::line_texts(before).push(piece@));
        proof {
            model::line_texts(before).lemma_flatten_push(piece@);
        }
        assert(v@.take(start as int) + v@.subrange(start as int, v@.len() as int) == v@);
    }
    assert(v@.take(v@.len() as int) == v@);
    lines
}

/// The content of `line`, its terminator removed, as characters.
pub(crate) fn content_chars(line: &str) -> (c: Vec<char>)
    ensures
        c@ == text::strip_term(line@),
{
    let mut v = chars_of(line);
    let n = content_len(&v);
    v.truncate(n);
    v
}

/// The line's content with its trailing `\r\n`/`\n` terminator (if any) removed.
pub fn strip_terminator(line: &str) -> (r: String)
    ensures
        r@ == text::strip_term(line@),
{
    let c = content_chars(line);
    string_of(&c)
}

fn has_char(v: &[char], c: char) -> (b: bool)
    ensures
        b == v@.contains(c),
{
    let mut i: usize = 0;
    while i < v.len()
        invariant
            i <= v@.len(),
            forall|j: int| 0 <= j < i ==> v@[j] != c,
        decreases v.len() - i,
    {
        if v[i] == c {
            return true;
        }
        i += 1;
    }
    false
}

pub fn is_wildcard_pattern(pattern: &str) -> (b: bool)
    ensures
        b == is_wildcard(pattern@),
{
    let v = chars_of(pattern);
    has_char(&v, '*') || has_char(&v, '?') || (v.len() > 0 && v[0] == '!')
}

/// A single pattern, and only a single pattern, with no glob/negation characters — the only
/// shape of `Host` block this library will ever rewrite.
pub fn is_single_plain_pattern(patterns: &[String]) -> (b: bool)
    ensures
        b == single_plain(patterns@.map_values(|p: String| p@)),
{
    patterns.len() == 1 && !is_wildcard_pattern(patterns[0].as_str())
}

/// Classify a line's content (terminator already removed).
pub fn classify_top(content: &str) -> (k: LineKind)
    ensures
        match k {
            LineKind::HostHeader(ps) => is_host_header(content@) && ps@.map_values(|p: String| p@)
                == header_patterns(content@),
            LineKind::MatchHeader => is_match_header(content@) && !is_host_header(content@),
            LineKind::Other => !is_host_header(content@) && !is_match_header(content@),
        },
{
    let c = chars_of(content);
    let s = skip_ws(&c, 0);
    assert(c@.skip(0) == c@);
    if s == c.len() || c[s] == '#' {
        return LineKind::Other;
    }
    let e = skip_token(&c, s);
    let host = vec!['h', 'o', 's', 't'];
    let mtch = vec!['m', 'a', 't', 'c', 'h'];
    assert(c@.skip(s as int).take(e - s) == c@.subrange(s as int, e as int));
    if range_eq_ic(&c, s, e, &host) {
        let patterns = split_words(&c, e);
        assert(c@.skip(s as int).skip(e - s) == c@.skip(e as int));
        LineKind::HostHeader(patterns)
    } else if range_eq_ic(&c, s, e, &mtch) {
        LineKind::MatchHeader
    } else {
        LineKind::Other
    }
}

/// How a raw line (with its terminator) classifies.
fn line_kind(line: &RawLine) -> (k: LineKind)
    ensures
        match k {
            LineKind::HostHeader(ps) => is_host_header(text::strip_term(line.0@))
                && ps@.map_values(|p: String| p@) == header_patterns(text::strip_term(line.0@)),
            LineKind::MatchHeader => is_match_header(text::strip_term(line.0@)) && !is_host_header(
                text::strip_term(line.0@),
            ),
            LineKind::Other => !starts_block(line.0@),
        },
{
    let content = strip_terminator(line.0.as_str());
    classify_top(content.as_str())
}

fn opens_block_line(line: &RawLine) -> (b: bool)
    ensures
        b == starts_block(line.0@),
{
    match line_kind(line) {
        LineKind::HostHeader(_) => true,
        LineKind::MatchHeader => true,
        LineKind::Other => false,
    }
}

fn blank_line(line: &RawLine) -> (b: bool)
    ensures
        b == is_blank(line.0@),
{
    let c = content_chars(line.0.as_str());
    assert(c@.subrange(0, c@.len() as int) == c@);
    range_all_ws(&c, 0, c.len())
}

/// The known directive a body line sets, if any.
pub(crate) fn directive_of(line: &RawLine) -> (d: Option<KnownDirective>)
    ensures
        d == line_directive(line.0@),
{
    let c = content_chars(line.0.as_str());
    let s = skip_ws(&c, 0);
    assert(c@.skip(0) == c@);
    if s == c.len() || c[s] == '#' {
        return None;
    }
    let e = skip_token(&c, s);
    assert(c@.skip(s as int).take(e - s) == c@.subrange(s as int, e as int));
    KnownDirective::from_keyword_range(&c, s, e)
}

/// Classify every line of a single-pattern `Host` block's body: the first occurrence of each
/// known directive becomes [`BlockLine::Known`], everything else (comments, blank lines, unknown
/// directives, and repeated occurrences of an already-seen known directive) becomes
/// [`BlockLine::Other`] and is preserved verbatim, in order.
pub fn classify_body(body: Vec<RawLine>) -> (out: Vec<BlockLine>)
    ensures
        out@.len() == body@.len(),
        forall|i: int| 0 <= i < body@.len() ==> #[trigger] out@[i].raw() == body@[i],
        well_classified(out@),
{
    let mut seen: Vec<bool> = vec![false, false, false, false, false];
    let mut out: Vec<BlockLine> = Vec::new();
    let mut i: usize = 0;
    while i < body.len()
        invariant
            i <= body@.len(),
            seen@.len() == 5,
            out@.len() == i,
            forall|k: int| 0 <= k < i ==> #[trigger] out@[k].raw() == body@[k],
            forall|d: KnownDirective|
                #![trigger seen@[d.rank() as int]]
                seen@[d.rank() as int] <==> exists|j: int|
                    0 <= j < i && line_directive(#[trigger] body@[j].0@) == Some(d),
            well_classified(out@),
        decreases body.len() - i,
    {
        let raw = body[i].dup();
        let ghost texts_before = model::body_texts(out@);
        let d = directive_of(&raw);
        let mut known = false;
        if let Some(directive) = d {
            let idx = directive.index();
            if !seen[idx] {
                seen.set(idx, true);
                out.push(BlockLine::Known { directive, line: raw });
                known = true;
            } else {
                out.push(BlockLine::Other(raw));
            }
        } else {
            out.push(BlockLine::Other(raw));
        }
        proof {
            let texts = model::body_texts(out@);
            assert(texts == texts_before.push(body@[i as int].0@));
            assert forall|k: int| 0 <= k <= i implies #[trigger] out@[k].raw() == body@[k] by {}
            assert forall|k: int| 0 <= k <= i implies texts[k] == body@[k].0@ by {}
            assert forall|dd: KnownDirective| #![trigger seen@[dd.rank() as int]]
                seen@[dd.rank() as int] <==> exists|j: int|
                    0 <= j < i + 1 && line_directive(#[trigger] body@[j].0@) == Some(dd) by {
                if seen@[dd.rank() as int] && !(d == Some(dd)) {
                    let j = choose|j: int|
                        0 <= j < i && line_directive(#[trigger] body@[j].0@) == Some(dd);
                    assert(0 <= j < i + 1 && line_directive(body@[j].0@) == Some(dd));
                }
                if d == Some(dd) {
                    assert(line_directive(body@[i as int].0@) == Some(dd));
                }
            }
            assert forall|k: int| 0 <= k < out@.len() implies {
                &&& (#[trigger] out@[k] is Known <==> first_occurrence(
                    model::body_texts(out@),
                    k,
                ))
                &&& (out@[k] is Known ==> Some(out@[k]->directive) == line_directive(
                    out@[k].raw().0@,
                ))
            } by {
                if k < i {
                    assert forall|j: int| 0 <= j <= k implies texts[j] == texts_before[j] by {}
                    assert(first_occurrence(texts_before, k) == first_occurrence(texts, k));
                } else {
                    if known {
                        assert forall|j: int| 0 <= j < k implies line_directive(
                            #[trigger] texts[j],
                        ) != line_directive(texts[k]) by {
                            if line_directive(texts[j]) == d {
                                let dd = d->0;
                                assert(exists|jj: int|
                                    0 <= jj < i && line_directive(#[trigger] body@[jj].0@)
                                        == Some(dd));
                            }
                        }
                    } else if d is Some {
                        let dd = d->0;
                        let j = choose|j: int|
                            0 <= j < i && line_directive(#[trigger] body@[j].0@) == Some(dd);
                        assert(line_directive(texts[j]) == line_directive(texts[k]));
                    }
                }
            }
        }
        i += 1;
    }
    out
}

/// Append `seg` to a well-parsed segment list it may follow.
fn push_segment(segments: &mut Vec<Segment>, seg: Segment)
    requires
        well_parsed(old(segments)@),
        segment_ok(seg),
        old(segments)@.len() > 0 ==> follows(old(segments)@.last(), seg),
    ensures
        final(segments)@ == old(segments)@.push(seg),
        well_parsed(final(segments)@),
        model::segment_texts(final(segments)@) == model::segment_texts(old(segments)@)
            + seg.texts(),
{
    let ghost before = segments@;
    segments.push(seg);
    proof {
        model::lemma_segment_texts_push(before, seg);
        assert forall|k: int| 0 <= k < segments@.len() implies segment_ok(
            #[trigger] segments@[k],
        ) by {
            if k < before.len() {
                assert(segments@[k] == before[k]);
            }
        }
        assert forall|k: int| 0 < k < segments@.len() implies follows(
            segments@[k - 1],
            #[trigger] segments@[k],
        ) by {
            if k < before.len() {
                assert(segments@[k] == before[k]);
                assert(segments@[k - 1] == before[k - 1]);
            }
        }
    }
}

/// The block opened by the header at `start`: its segment, the blank lines that trail it
/// when it is managed, and the index of the next block header (or the end).
fn take_block(raw_lines: &Vec<RawLine>, start: usize, kind: LineKind) -> (r: (
    Segment,
    Vec<RawLine>,
    usize,
))
    requires
        start < raw_lines@.len(),
        match kind {
            LineKind::HostHeader(ps) => is_host_header(text::strip_term(raw_lines@[start as int].0@))
                && ps@.map_values(|p: String| p@) == header_patterns(
                text::strip_term(raw_lines@[start as int].0@),
            ),
            LineKind::MatchHeader => is_match_header(text::strip_term(raw_lines@[start as int].0@))
                && !is_host_header(text::strip_term(raw_lines@[start as int].0@)),
            LineKind::Other => false,
        },
    ensures
        start < r.2 <= raw_lines@.len(),
        r.2 == raw_lines@.len() || starts_block(raw_lines@[r.2 as int].0@),
        segment_ok(r.0),
        opens_block(r.0),
        r.0.texts() + model::line_texts(r.1@) == model::line_texts(raw_lines@).subrange(
            start as int,
            r.2 as int,
        ),
        forall|k: int| 0 <= k < r.1@.len() ==> !starts_block(#[trigger] r.1@[k].0@),
        r.1@.len() > 0 ==> r.0 is Managed && blank_run(Segment::Raw(r.1)),
{
    let ghost lt = model::line_texts(raw_lines@);
    let n = raw_lines.len();
    let mut i = start + 1;
    while i < n && !opens_block_line(&raw_lines[i])
        invariant
            n == raw_lines@.len(),
            start < i <= n,
            forall|k: int| start < k < i ==> !starts_block(#[trigger] raw_lines@[k].0@),
        decreases n - i,
    {
        i += 1;
    }
    let end = i;
    let managed = match kind {
        LineKind::HostHeader(patterns) => {
            if is_single_plain_pattern(&patterns) {
                let alias = patterns[0].clone();
                assert(patterns@.map_values(|p: String| p@) == seq![alias@]);
                Some(alias)
            } else {
                None
            }
        },
        _ => None,
    };
    match managed {
        Some(alias) => {
            // A trailing run of purely-blank lines reads as separator whitespace before
            // whatever comes next, not as part of this block: otherwise removing the block
            // later would also swallow that spacing.
            let mut keep = end;
            while keep > start + 1 && blank_line(&raw_lines[keep - 1])
                invariant
                    n == raw_lines@.len(),
                    start + 1 <= keep <= end <= n,
                    forall|k: int| keep <= k < end ==> is_blank(#[trigger] raw_lines@[k].0@),
                decreases keep,
            {
                keep -= 1;
            }
            let header = raw_lines[start].dup();
            let body = clone_lines(raw_lines, start + 1, keep);
            let lines = classify_body(body);
            let block = ManagedBlock { alias, header, lines };
            let trailing = clone_lines(raw_lines, keep, end);
            proof {
                assert(model::body_texts(lines@) == lt.subrange(start + 1, keep as int));
                assert(model::line_texts(trailing@) == lt.subrange(keep as int, end as int));
                assert(seq![lt[start as int]] + lt.subrange(start + 1, keep as int) + lt.subrange(
                    keep as int,
                    end as int,
                ) == lt.subrange(start as int, end as int));
                assert forall|k: int| 0 <= k < lines@.len() implies !starts_block(
                    #[trigger] lines@[k].raw().0@,
                ) by {
                    assert(lines@[k].raw() == body@[k]);
                    assert(body@[k] == raw_lines@[start + 1 + k]);
                }
                if lines@.len() > 0 {
                    assert(lines@.last().raw() == body@[body@.len() - 1]);
                    assert(lines@.last().raw() == raw_lines@[keep - 1]);
                }
                assert(managed_ok(block));
                assert forall|k: int| 0 <= k < trailing@.len() implies !starts_block(
                    #[trigger] trailing@[k].0@,
                ) && is_blank(trailing@[k].0@) by {
                    assert(trailing@[k] == raw_lines@[keep + k]);
                }
            }
            (Segment::Managed(block), trailing, end)
        },
        None => {
            let block_lines = clone_lines(raw_lines, start, end);
            proof {
                assert(model::line_texts(block_lines@) == lt.subrange(start as int, end as int));
                assert(block_lines@[0] == raw_lines@[start as int]);
                assert forall|k: int| 1 <= k < block_lines@.len() implies !starts_block(
                    #[trigger] block_lines@[k].0@,
                ) by {
                    assert(block_lines@[k] == raw_lines@[start + k]);
                }
                assert(model::line_texts(Seq::<RawLine>::empty()) == Seq::<Seq<char>>::empty());
            }
            (Segment::Raw(block_lines), Vec::new(), end)
        },
    }
}

/// Parse a whole `~/.ssh/config`-style document into segments.
pub fn parse(text: &str) -> (segs: Vec<Segment>)
    ensures
        is_line_split(model::segment_texts(segs@), text@),
        well_parsed(segs@),
{
    let raw_lines = split_raw_lines(text);
    let ghost lt = model::line_texts(raw_lines@);
    let n = raw_lines.len();
    let mut segments: Vec<Segment> = Vec::new();
    let mut current_raw: Vec<RawLine> = Vec::new();
    let mut i: usize = 0;
    while i < n
        invariant
            n == raw_lines@.len(),
            lt == model::line_texts(raw_lines@),
            is_line_split(lt, text@),
            i <= n,
            model::segment_texts(segments@) + model::line_texts(current_raw@) == lt.take(i as int),
            well_parsed(segments@),
            forall|k: int| 0 <= k < current_raw@.len() ==> !starts_block(#[trigger] current_raw@[k].0@),
            segments@.len() > 0 && current_raw@.len() > 0 ==> segments@.last() is Managed
                && blank_run(Segment::Raw(current_raw)),
            segments@.len() > 0 ==> i == n || starts_block(raw_lines@[i as int].0@),
        decreases n - i,
    {
        let kind = line_kind(&raw_lines[i]);
        match kind {
            LineKind::Other => {
                let ghost before = current_raw@;
                current_raw.push(raw_lines[i].dup());
                assert(model::line_texts(current_raw@) == model::line_texts(before).push(lt[i as int]));
                assert(lt.take(i as int).push(lt[i as int]) == lt.take(i + 1));
                i += 1;
            },
            _ => {
                // Close the pending run of plain lines.
                if current_raw.len() > 0 {
                    let mut run: Vec<RawLine> = Vec::new();
                    std::mem::swap(&mut run, &mut current_raw);
                    push_segment(&mut segments, Segment::Raw(run));
                }
                assert(model::line_texts(current_raw@) =~= Seq::<Seq<char>>::empty());
                let ghost done = model::segment_texts(segments@);
                let (seg, trailing, end) = take_block(&raw_lines, i, kind);
                push_segment(&mut segments, seg);
                current_raw = trailing;
                proof {
                    assert(done == lt.take(i as int));
                    assert(lt.take(i as int) + lt.subrange(i as int, end as int) == lt.take(end as int));
                    assert(segments@.last() == seg);
                }
                i = end;
            },
        }
    }
    if current_raw.len() > 0 {
        push_segment(&mut segments, Segment::Raw(current_raw));
    } else {
        assert(model::line_texts(current_raw@) =~= Seq::<Seq<char>>::empty());
    }
    assert(lt.take(n as int) == lt);
    segments
}

/// Re-render segments back into a document. With no edits, this reproduces the parsed text
/// exactly, since every segment is just the input lines it was built from.
pub fn render(segments: &[Segment]) -> (out: String)
    ensures
        out@ == model::rendered(segments@),
{
    broadcast use Seq::lemma_flatten_push;

    let mut out = String::new();
    let mut k: usize = 0;
    while k < segments.len()
        invariant
            k <= segments@.len(),
            out@ == model::segment_texts(segments@.take(k as int)).flatten(),
        decreases segments.len() - k,
    {
        let ghost start = out@;
        let ghost texts = segments@[k as int].texts();
        match &segments[k] {
            Segment::Raw(lines) => {
                let mut j: usize = 0;
                while j < lines.len()
                    invariant
                        j <= lines@.len(),
                        texts == model::line_texts(lines@),
                        out@ == start + texts.take(j as int).flatten(),
                    decreases lines.len() - j,
                {
                    out.append(lines[j].0.as_str());
                    proof {
                        model::lemma_flatten_take_succ(texts, j as int);
                    }
                    j += 1;
                }
                assert(texts.take(j as int) == texts);
            },
            Segment::Managed(block) => {
                out.append(block.header.0.as_str());
                proof {
                    seq![block.header.0@].lemma_flatten_singleton();
                }
                let ghost bt = model::body_texts(block.lines@);
                let mut j: usize = 0;
                while j < block.lines.len()
                    invariant
                        j <= block.lines@.len(),
                        bt == model::body_texts(block.lines@),
                        texts == seq![block.header.0@] + bt,
                        out@ == start + block.header.0@ + bt.take(j as int).flatten(),
                    decreases block.lines.len() - j,
                {
                    out.append(block.lines[j].raw_line().0.as_str());
                    proof {
                        model::lemma_flatten_take_succ(bt, j as int);
                    }
                    j += 1;
                }
                proof {
                    assert(bt.take(j as int) == bt);
                    vstd::seq_lib::lemma_flatten_concat(seq![block.header.0@], bt);
                }
            },
        }
        proof {
            model::lemma_segment_texts_push(segments@.take(k as int), segments@[k as int]);
            assert(segments@.take(k + 1) == segments@.take(k as int).push(segments@[k as int]));
            vstd::seq_lib::lemma_flatten_concat(model::segment_texts(segments@.take(k as int)), texts);
        }
        k += 1;
    }
    assert(segments@.take(k as int) == segments@);
    out
}

/// Rendering what `parse` returns gives back the parsed text, character for character.
pub proof fn law_render_parse_roundtrip(text: Seq<char>, segs: Seq<Segment>)
    requires
        is_line_split(model::segment_texts(segs), text),
    ensures
        model::rendered(segs) == text,
{
}


/// A character of a plain host name: an ASCII letter or digit, `.`, `-` or `_`.
pub open spec fn host_name_char(c: char) -> bool {
    let u = c as u32;
    ||| 0x61 <= u <= 0x7a
    ||| 0x41 <= u <= 0x5a
    ||| 0x30 <= u <= 0x39
    ||| u == 0x2e
    ||| u == 0x2d
    ||| u == 0x5f
}

/// A plain host name: letters, digits, dots, dashes and underscores, at least one.
pub open spec fn plain_host_name(p: Seq<char>) -> bool {
    p.len() > 0 && forall|i: int| 0 <= i < p.len() ==> host_name_char(#[trigger] p[i])
}

/// A plain host name is no wildcard pattern: dots, dashes, underscores, letters and digits
/// never make one.
pub proof fn law_plain_names_are_not_wildcards(p: Seq<char>)
    requires
        forall|i: int| 0 <= i < p.len() ==> host_name_char(#[trigger] p[i]),
    ensures
        !is_wildcard(p),
{
    assert forall|i: int| 0 <= i < p.len() implies p[i] != '*' && p[i] != '?' && p[i] != '!' by {
        assert(host_name_char(p[i]));
    }
}

/// A pattern holding `*` or `?` anywhere, or starting with `!`, is a wildcard pattern, whatever
/// else it holds.
pub proof fn law_glob_and_negation_make_wildcards(p: Seq<char>, i: int)
    requires
        0 <= i < p.len(),
        p[i] == '*' || p[i] == '?' || (i == 0 && p[0] == '!'),
    ensures
        is_wildcard(p),
{
    if p[i] == '*' {
        assert(p.contains('*'));
    } else if p[i] == '?' {
        assert(p.contains('?'));
    }
}

/// The header line `Host <p>` ended by `\n`.
pub open spec fn host_header_line(p: Seq<char>) -> Seq<char> {
    seq!['H', 'o', 's', 't', ' '] + p + seq!['\n']
}

/// `Host <p>` with a plain host name `p` opens a block this library manages, whose one
/// pattern is `p`.
pub proof fn law_plain_host_header_is_managed(p: Seq<char>)
    requires
        plain_host_name(p),
    ensures
        is_managed_header(host_header_line(p)),
        header_patterns(text::strip_term(host_header_line(p))) == seq![p],
{
    let h = host_header_line(p);
    let c = seq!['H', 'o', 's', 't', ' '] + p;
    assert(h.drop_last() == c);
    assert(host_name_char(p[p.len() - 1]));
    assert(c.last() == p[p.len() - 1]);
    assert(text::strip_term(h) == c);
    assert(!text::is_ws(c[0]));
    text::lemma_ws_len_is(c, 0);
    assert(text::trim_start(c) == c);
    assert forall|i: int| 0 <= i < 4 implies !text::is_ws(#[trigger] c[i]) by {}
    assert(text::is_ws(c[4]));
    text::lemma_token_len_is(c, 4);
    assert(leading_word(c) == seq!['H', 'o', 's', 't']);
    assert(text::eq_ic(leading_word(c), host_word()));
    assert(is_host_header(c));
    let rest = c.skip(4);
    assert(rest == seq![' '] + p);
    assert(rest.drop_first() == p);
    assert forall|i: int| 0 <= i < p.len() implies !text::is_ws(#[trigger] p[i]) by {
        assert(host_name_char(p[i]));
    }
    text::lemma_token_len_is(p, p.len() as int);
    assert(p.take(p.len() as int) == p);
    assert(p.skip(p.len() as int) == Seq::<char>::empty());
    assert(text::words(Seq::<char>::empty()) == Seq::<Seq<char>>::empty());
    assert(text::words(p) == seq![p]);
    assert(text::words(rest) == seq![p]);
    law_plain_names_are_not_wildcards(p);
}

/// A document whose first line is `Host <p>`, for a plain host name `p`, parses into a first
/// segment that is an editable block for alias `p` headed by that line.
pub proof fn law_plain_host_is_editable(text: Seq<char>, segs: Seq<Segment>, p: Seq<char>)
    requires
        is_line_split(model::segment_texts(segs), text),
        well_parsed(segs),
        plain_host_name(p),
        host_header_line(p).len() <= text.len(),
        text.take(host_header_line(p).len() as int) == host_header_line(p),
    ensures
        segs.len() > 0,
        segs[0] is Managed,
        segs[0]->Managed_0.alias@ == p,
        segs[0]->Managed_0.header.0@ == host_header_line(p),
{
    let h = host_header_line(p);
    let n = h.len() as int;
    let lines = model::segment_texts(segs);
    law_plain_host_header_is_managed(p);
    assert(lines.len() > 0) by {
        if lines.len() == 0 {
            assert(lines.flatten().len() == 0);
        }
    }
    let l0 = lines[0];
    assert(lines.flatten() == l0 + lines.drop_first().flatten());
    assert forall|j: int| 0 <= j < l0.len() implies #[trigger] l0[j] == text[j] by {
        assert(text[j] == (l0 + lines.drop_first().flatten())[j]);
    }
    assert forall|j: int| 0 <= j < n - 1 implies #[trigger] h[j] != '\n' by {
        if 5 <= j < n - 1 {
            assert(host_name_char(p[j - 5]));
        }
    }
    if l0.len() > n {
        assert(l0[n - 1] == text[n - 1]);
        assert(text[n - 1] == h[n - 1]);
        assert(l0[n - 1] == '\n');
    } else if l0.len() < n {
        if lines.len() > 1 {
            assert(l0.last() == '\n');
            assert(l0.last() == text[l0.len() - 1]);
            assert(text[l0.len() - 1] == h[l0.len() - 1]);
        } else {
            assert(lines.drop_first().flatten() == Seq::<char>::empty()) by {
                assert(lines.drop_first().len() == 0);
            }
            assert(l0 =~= text);
        }
    }
    assert(l0.len() == n);
    assert(l0 =~= h) by {
        assert forall|j: int| 0 <= j < n implies l0[j] == h[j] by {
            assert(l0[j] == text[j]);
            assert(text[j] == text.take(n)[j]);
        }
    }
    let st = segs.map_values(|x: Segment| x.texts());
    assert(segs.len() > 0) by {
        if segs.len() == 0 {
            assert(st.len() == 0);
            assert(lines.len() == 0);
        }
    }
    assert(segment_ok(segs[0]));
    let t0 = segs[0].texts();
    assert(st[0] == t0);
    assert(t0.len() > 0);
    assert(st.flatten() == st.first() + st.drop_first().flatten());
    assert(l0 == (t0 + st.drop_first().flatten())[0]);
    assert(l0 == t0[0]);
    match segs[0] {
        Segment::Raw(ls) => {
            assert(t0[0] == ls@[0].0@);
            assert(!is_managed_header(ls@[0].0@));
        },
        Segment::Managed(b) => {
            assert(t0[0] == b.header.0@);
            assert(header_patterns(text::strip_term(b.header.0@)) == seq![b.alias@]);
            assert(seq![b.alias@][0] == seq![p][0]);
        },
    }
}

} // verus!
