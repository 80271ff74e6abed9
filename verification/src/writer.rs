//! Surgical, in-memory editing of parsed [`Segment`]s.
//!
//! Every function here mutates only the lines that actually changed: unmapped directives,
//! comments and blank lines inside an edited block are left untouched, and every other block in
//! the file is never even visited. This module only ever touches the in-memory model.
use vstd::prelude::*;
use vstd::string::StringExecFns;

use crate::lcs;
use crate::host::{self, decimal_string, find_known_index, host_from_managed};
use crate::model::{self, BlockLine, KnownDirective, ManagedBlock, RawLine, Segment, SshHost};
use crate::parser::{self, classify_body, content_chars};
use crate::text::{self, chars_of, concat_str, content_len, ends_with_newline, same_text, skip_token, skip_ws, string_of, string_of_range};

verus! {

// ---------------------------------------------------------------------------------------------
// Views
// ---------------------------------------------------------------------------------------------
/// A body line as the contracts see it: its directive when `Known`, and its text.
pub open spec fn view_line(l: BlockLine) -> (Option<KnownDirective>, Seq<char>) {
    match l {
        BlockLine::Known { directive, line } => (Some(directive), line.0@),
        BlockLine::Other(line) => (None, line.0@),
    }
}

pub open spec fn view_lines(ls: Seq<BlockLine>) -> Seq<(Option<KnownDirective>, Seq<char>)> {
    ls.map_values(|l: BlockLine| view_line(l))
}

pub open spec fn opt_str(v: Option<&str>) -> Option<Seq<char>> {
    match v {
        Some(s) => Some(s@),
        None => None,
    }
}

/// Segment `s` is the managed block for `alias`.
pub open spec fn is_managed_alias(s: Segment, alias: Seq<char>) -> bool {
    s matches Segment::Managed(b) && b.alias@ == alias
}

/// Segment `i` is the first managed block for `alias`.
pub open spec fn is_first_managed(segs: Seq<Segment>, alias: Seq<char>, i: int) -> bool {
    &&& 0 <= i < segs.len()
    &&& is_managed_alias(segs[i], alias)
    &&& forall|j: int| 0 <= j < i ==> !is_managed_alias(#[trigger] segs[j], alias)
}

pub open spec fn has_managed(segs: Seq<Segment>, alias: Seq<char>) -> bool {
    exists|i: int| 0 <= i < segs.len() && is_managed_alias(#[trigger] segs[i], alias)
}

/// Line `i` is the last `Known` line.
pub open spec fn is_last_known(lines: Seq<BlockLine>, i: int) -> bool {
    &&& 0 <= i < lines.len()
    &&& lines[i] is Known
    &&& forall|j: int| i < j < lines.len() ==> !(#[trigger] lines[j] is Known)
}

pub open spec fn any_known(lines: Seq<BlockLine>) -> bool {
    exists|i: int| 0 <= i < lines.len() && #[trigger] lines[i] is Known
}

/// The indentation and keyword of a line, as written.
pub open spec fn keyword_part(l: Seq<char>) -> Seq<char> {
    let c = text::strip_term(l);
    c.take((text::ws_len(c) + text::token_len(c.skip(text::ws_len(c) as int))) as int)
}

/// The line's terminator: `"\n"`, `"\r\n"` or nothing.
pub open spec fn terminator(l: Seq<char>) -> Seq<char> {
    l.skip(text::strip_term(l).len() as int)
}

/// `l` with its value replaced by `v`, keeping indentation, keyword and terminator.
pub open spec fn with_value(l: Seq<char>, v: Seq<char>) -> Seq<char> {
    keyword_part(l) + seq![' '] + v + terminator(l)
}

pub open spec fn indent() -> Seq<char> {
    seq![' ', ' ', ' ', ' ']
}

/// A new known line: four spaces, the keyword, a space, the value and `ending`.
pub open spec fn new_known_text(d: KnownDirective, v: Seq<char>, ending: Seq<char>) -> Seq<char> {
    indent() + d.word() + seq![' '] + v + ending
}

pub open spec fn crlf() -> Seq<char> {
    seq!['\r', '\n']
}

pub open spec fn lf() -> Seq<char> {
    seq!['\n']
}

/// The terminator new lines of a block get: the header's `\r\n`, else `\n`.
pub open spec fn ending_of(header: Seq<char>) -> Seq<char> {
    if header.len() >= 2 && header[header.len() - 2] == '\r' && header.last() == '\n' {
        crlf()
    } else {
        lf()
    }
}

/// Position `i` of a body view is the first line that sets `d`.
pub open spec fn sets_at(vs: Seq<(Option<KnownDirective>, Seq<char>)>, d: KnownDirective, i: int) -> bool {
    &&& 0 <= i < vs.len()
    &&& vs[i].0 == Some(d)
    &&& forall|j: int| 0 <= j < i ==> (#[trigger] vs[j]).0 != Some(d)
}

pub open spec fn sets(vs: Seq<(Option<KnownDirective>, Seq<char>)>, d: KnownDirective) -> bool {
    exists|i: int| sets_at(vs, d, i)
}

/// Position `i` holds the last known line of a body view.
pub open spec fn last_set_at(vs: Seq<(Option<KnownDirective>, Seq<char>)>, i: int) -> bool {
    &&& 0 <= i < vs.len()
    &&& vs[i].0 is Some
    &&& forall|j: int| i < j < vs.len() ==> (#[trigger] vs[j]).0 is None
}

/// Where a new known line goes: after the last known line, or at the end.
pub open spec fn set_point(vs: Seq<(Option<KnownDirective>, Seq<char>)>) -> int {
    if exists|i: int| last_set_at(vs, i) {
        (choose|i: int| last_set_at(vs, i)) + 1
    } else {
        vs.len() as int
    }
}

/// The body after setting (`Some`) or clearing (`None`) directive `d`: the first line setting
/// `d` gets the new value or goes; without one, a new line is inserted after the last known
/// line (or at the end), terminated by `ending`.
pub open spec fn applied(
    vs: Seq<(Option<KnownDirective>, Seq<char>)>,
    ending: Seq<char>,
    d: KnownDirective,
    v: Option<Seq<char>>,
) -> Seq<(Option<KnownDirective>, Seq<char>)> {
    if sets(vs, d) {
        let i = choose|i: int| sets_at(vs, d, i);
        match v {
            None => vs.remove(i),
            Some(x) => vs.update(i, (Some(d), with_value(vs[i].1, x))),
        }
    } else {
        match v {
            None => vs,
            Some(x) => vs.insert(set_point(vs), (Some(d), new_known_text(d, x, ending))),
        }
    }
}

pub proof fn lemma_sets_at_unique(vs: Seq<(Option<KnownDirective>, Seq<char>)>, d: KnownDirective, i: int, j: int)
    requires
        sets_at(vs, d, i),
        sets_at(vs, d, j),
    ensures
        i == j,
{
    if i < j {
        assert(vs[i].0 == Some(d));
    }
    if j < i {
        assert(vs[j].0 == Some(d));
    }
}

/// The first known line for `d` is the first line setting `d` in the view.
pub proof fn lemma_first_known_view(lines: Seq<BlockLine>, d: KnownDirective, i: int)
    ensures
        host::is_first_known(lines, d, i) <==> sets_at(view_lines(lines), d, i),
{
    let vs = view_lines(lines);
    if host::is_first_known(lines, d, i) {
        assert forall|j: int| 0 <= j < i implies (#[trigger] vs[j]).0 != Some(d) by {
            assert(!(lines[j] matches BlockLine::Known { directive, .. } && directive == d));
        }
    }
    if sets_at(vs, d, i) {
        assert forall|j: int| 0 <= j < i implies !(#[trigger] lines[j] matches BlockLine::Known {
            directive,
            ..
        } && directive == d) by {
            assert(vs[j].0 != Some(d));
        }
    }
}

pub proof fn lemma_last_known_view(lines: Seq<BlockLine>, i: int)
    ensures
        is_last_known(lines, i) <==> last_set_at(view_lines(lines), i),
{
    let vs = view_lines(lines);
    if is_last_known(lines, i) {
        assert forall|j: int| i < j < vs.len() implies (#[trigger] vs[j]).0 is None by {
            assert(!(lines[j] is Known));
        }
    }
    if last_set_at(vs, i) {
        assert forall|j: int| i < j < lines.len() implies !(#[trigger] lines[j] is Known) by {
            assert(vs[j].0 is None);
        }
    }
}

// ---------------------------------------------------------------------------------------------
// Lookups
// ---------------------------------------------------------------------------------------------

pub fn find_managed_index(segments: &[Segment], alias: &str) -> (r: Option<usize>)
    ensures
        match r {
            Some(i) => is_first_managed(segments@, alias@, i as int),
            None => !has_managed(segments@, alias@),
        },
{
    let mut i: usize = 0;
    while i < segments.len()
        invariant
            i <= segments@.len(),
            forall|j: int| 0 <= j < i ==> !is_managed_alias(#[trigger] segments@[j], alias@),
        decreases segments.len() - i,
    {
        match &segments[i] {
            Segment::Managed(b) => {
                if same_text(b.alias.as_str(), alias) {
                    return Some(i);
                }
            },
            Segment::Raw(_) => {},
        }
        i += 1;
    }
    None
}

pub fn last_known_index(block: &ManagedBlock) -> (r: Option<usize>)
    ensures
        match r {
            Some(i) => is_last_known(block.lines@, i as int),
            None => !any_known(block.lines@),
        },
{
    let mut i = block.lines.len();
    while i > 0
        invariant
            i <= block.lines@.len(),
            forall|j: int| i <= j < block.lines@.len() ==> !(#[trigger] block.lines@[j] is Known),
        decreases i,
    {
        if block.lines[i - 1].is_known() {
            return Some(i - 1);
        }
        i -= 1;
    }
    None
}

pub proof fn lemma_last_known_unique(lines: Seq<BlockLine>, i: int, j: int)
    requires
        is_last_known(lines, i),
        is_last_known(lines, j),
    ensures
        i == j,
{
    if i < j {
        assert(lines[j] is Known);
    }
    if j < i {
        assert(lines[i] is Known);
    }
}

// ---------------------------------------------------------------------------------------------
// Line editing
// ---------------------------------------------------------------------------------------------
/// Split a raw line into `(leading_whitespace_and_keyword, terminator)`, so a replacement value
/// can be spliced in while keeping the line's indentation, keyword casing and line ending.
pub fn split_keyword_and_terminator(line: &str) -> (r: (String, String))
    ensures
        r.0@ == keyword_part(line@),
        r.1@ == terminator(line@),
{
    let v = chars_of(line);
    let n = content_len(&v);
    let terminator = string_of_range(&v, n, v.len());
    let c = content_chars(line);
    let keyword_start = skip_ws(&c, 0);
    assert(c@.skip(0) == c@);
    let keyword_end = skip_token(&c, keyword_start);
    let keyword_part = string_of_range(&c, 0, keyword_end);
    assert(v@.subrange(n as int, v@.len() as int) == v@.skip(n as int));
    (keyword_part, terminator)
}

/// Keyword part, a space, `new_value`, terminator.
fn spliced(line: &str, new_value: &str) -> (s: String)
    ensures
        s@ == with_value(line@, new_value@),
{
    let (keyword_part, terminator) = split_keyword_and_terminator(line);
    let sp = vec![' '];
    let mut s = keyword_part;
    s.append(string_of(&sp).as_str());
    s.append(new_value);
    s.append(terminator.as_str());
    s
}

pub fn replace_line_value(line: &mut RawLine, new_value: &str)
    ensures
        final(line).0@ == with_value(old(line).0@, new_value@),
{
    let s = spliced(line.0.as_str(), new_value);
    line.0 = s;
}

pub fn set_header_alias(header: &mut RawLine, new_alias: &str)
    ensures
        final(header).0@ == with_value(old(header).0@, new_alias@),
{
    let s = spliced(header.0.as_str(), new_alias);
    header.0 = s;
}

/// Four spaces, the keyword, a space, `value` and `ending`.
fn known_line_text(directive: KnownDirective, value: &str, ending: &str) -> (s: String)
    ensures
        s@ == new_known_text(directive, value@, ending@),
{
    let ind = vec![' ', ' ', ' ', ' '];
    let sp = vec![' '];
    let mut s = string_of(&ind);
    s.append(directive.keyword());
    s.append(string_of(&sp).as_str());
    s.append(value);
    s.append(ending);
    s
}

pub fn build_known_line(directive: KnownDirective, value: &str) -> (r: RawLine)
    ensures
        r.0@ == new_known_text(directive, value@, lf()),
{
    proof {
        reveal_strlit("\n");
    }
    RawLine(known_line_text(directive, value, "\n"))
}

pub fn line_ending(block: &ManagedBlock) -> (s: &'static str)
    ensures
        s@ == ending_of(block.header.0@),
{
    let v = chars_of(block.header.0.as_str());
    let n = v.len();
    if n >= 2 && v[n - 2] == '\r' && v[n - 1] == '\n' {
        proof {
            reveal_strlit("\r\n");
        }
        "\r\n"
    } else {
        proof {
            reveal_strlit("\n");
        }
        "\n"
    }
}

pub fn apply_known_field(block: &mut ManagedBlock, directive: KnownDirective, new_value: Option<&str>)
    ensures
        final(block).alias == old(block).alias,
        final(block).header == old(block).header,
        view_lines(final(block).lines@) == applied(
            view_lines(old(block).lines@),
            ending_of(old(block).header.0@),
            directive,
            opt_str(new_value),
        ),
{
    let ghost old_lines = block.lines@;
    let ghost vs = view_lines(old_lines);
    match (find_known_index(block, directive), new_value) {
        (Some(idx), None) => {
            block.lines.remove(idx);
            proof {
                lemma_first_known_view(old_lines, directive, idx as int);
                let c = choose|i: int| sets_at(vs, directive, i);
                lemma_sets_at_unique(vs, directive, idx as int, c);
                assert(view_lines(block.lines@) == vs.remove(idx as int));
            }
        },
        (Some(idx), Some(v)) => {
            let text = spliced(block.lines[idx].raw_line().0.as_str(), v);
            block.lines.set(idx, BlockLine::Known { directive, line: RawLine(text) });
            proof {
                lemma_first_known_view(old_lines, directive, idx as int);
                let c = choose|i: int| sets_at(vs, directive, i);
                lemma_sets_at_unique(vs, directive, idx as int, c);
                assert(view_lines(block.lines@) == vs.update(
                    idx as int,
                    (Some(directive), with_value(vs[idx as int].1, v@)),
                ));
            }
        },
        (None, Some(v)) => {
            proof {
                if sets(vs, directive) {
                    let c = choose|i: int| sets_at(vs, directive, i);
                    lemma_first_known_view(old_lines, directive, c);
                }
            }
            let insert_at = match last_known_index(block) {
                Some(i) => {
                    let len = block.lines.len();
                    assert(i < len);
                    i + 1
                },
                None => block.lines.len(),
            };
            proof {
                if exists|i: int| last_set_at(vs, i) {
                    let c = choose|i: int| last_set_at(vs, i);
                    lemma_last_known_view(old_lines, c);
                    lemma_last_known_view(old_lines, (insert_at - 1) as int);
                    lemma_last_known_unique(old_lines, (insert_at - 1) as int, c);
                } else if insert_at < old_lines.len() {
                    lemma_last_known_view(old_lines, (insert_at - 1) as int);
                }
            }
            let ending = line_ending(block);
            let text = known_line_text(directive, v, ending);
            block.lines.insert(insert_at, BlockLine::Known { directive, line: RawLine(text) });
            assert(view_lines(block.lines@) == vs.insert(
                insert_at as int,
                (Some(directive), new_known_text(directive, v@, ending_of(block.header.0@))),
            ));
        },
        (None, None) => {
            proof {
                if sets(vs, directive) {
                    let c = choose|i: int| sets_at(vs, directive, i);
                    lemma_first_known_view(old_lines, directive, c);
                }
            }
        },
    }
}

// ---------------------------------------------------------------------------------------------
// Appending and removing blocks
// ---------------------------------------------------------------------------------------------
/// The text of the document's last line, if the last segment has one.
pub open spec fn last_line(segs: Seq<Segment>) -> Option<Seq<char>> {
    if segs.len() == 0 {
        None
    } else {
        match segs.last() {
            Segment::Raw(ls) => if ls@.len() > 0 {
                Some(ls@.last().0@)
            } else {
                None
            },
            Segment::Managed(b) => if b.lines.len() > 0 {
                Some(b.lines@.last().raw().0@)
            } else {
                Some(b.header.0@)
            },
        }
    }
}

pub open spec fn lacks_newline(l: Seq<char>) -> bool {
    !(l.len() > 0 && l.last() == '\n')
}

/// The same segments, save perhaps the last line's text: kinds and aliases unchanged.
pub open spec fn same_blocks(old: Seq<Segment>, new: Seq<Segment>) -> bool {
    &&& old.len() == new.len()
    &&& forall|i: int| 0 <= i < old.len() - 1 ==> #[trigger] new[i] == old[i]
    &&& forall|i: int|
        0 <= i < old.len() ==> (#[trigger] new[i] is Managed <==> old[i] is Managed) && (
        old[i] is Managed ==> new[i]->Managed_0.alias == old[i]->Managed_0.alias)
}

/// `new` is `old` with the document's last line replaced by `line`.
pub open spec fn last_line_replaced(old: Seq<Segment>, new: Seq<Segment>, line: RawLine) -> bool {
    &&& old.len() == new.len()
    &&& old.len() > 0
    &&& forall|i: int| 0 <= i < old.len() - 1 ==> #[trigger] new[i] == old[i]
    &&& match (old.last(), new.last()) {
        (Segment::Raw(a), Segment::Raw(b)) => a@.len() > 0 && b@ == a@.update(a@.len() - 1, line),
        (Segment::Managed(a), Segment::Managed(b)) => a.alias == b.alias && if a.lines@.len() == 0 {
            b.lines == a.lines && b.header == line
        } else {
            a.header == b.header && b.lines@ == a.lines@.update(
                a.lines@.len() - 1,
                match a.lines@.last() {
                    BlockLine::Known { directive, .. } => BlockLine::Known { directive, line },
                    BlockLine::Other(_) => BlockLine::Other(line),
                },
            )
        },
        _ => false,
    }
}

/// The document's last line, for editing in place.
pub fn last_raw_line_mut(segments: &mut Vec<Segment>) -> (r: Option<&mut RawLine>)
    ensures
        match r {
            None => last_line(old(segments)@) is None && final(segments)@ == old(segments)@,
            Some(l) => last_line(old(segments)@) == Some(l.0@) && last_line_replaced(
                old(segments)@,
                final(segments)@,
                *final(l),
            ),
        },
{
    let n = segments.len();
    if n == 0 {
        return None;
    }
    match &mut segments[n - 1] {
        Segment::Raw(lines) => {
            let k = lines.len();
            if k == 0 {
                None
            } else {
                Some(&mut lines[k - 1])
            }
        },
        Segment::Managed(block) => {
            let k = block.lines.len();
            if k == 0 {
                Some(&mut block.header)
            } else {
                match &mut block.lines[k - 1] {
                    BlockLine::Known { line, .. } => Some(line),
                    BlockLine::Other(line) => Some(line),
                }
            }
        },
    }
}

/// Extending the last line by `x` extends the document by `x`.
proof fn lemma_rendered_last_line(old: Seq<Segment>, new: Seq<Segment>, line: RawLine, x: Seq<char>)
    requires
        last_line_replaced(old, new, line),
        last_line(old) is Some,
        line.0@ == last_line(old)->0 + x,
    ensures
        model::rendered(new) == model::rendered(old) + x,
        same_blocks(old, new),
{
    let prefix = old.drop_last();
    let old_last = old.last();
    let new_last = new.last();
    match old_last {
        Segment::Raw(ls) => {
            let t = model::line_texts(ls@);
            lemma_flatten_extend_last(t, x);
            assert(new_last.texts() =~= t.update(t.len() - 1, t.last() + x));
        },
        Segment::Managed(b) => {
            let t = b.texts();
            lemma_flatten_extend_last(t, x);
            assert(new_last.texts() =~= t.update(t.len() - 1, t.last() + x));
        },
    }
    assert(old == prefix + seq![old_last]);
    assert(new == prefix + seq![new_last]);
    model::lemma_rendered_concat(prefix, seq![old_last]);
    model::lemma_rendered_concat(prefix, seq![new_last]);
    lemma_rendered_single(old_last);
    lemma_rendered_single(new_last);
}

/// Replacing the document's last line replaces the last of its lines.
proof fn lemma_segment_texts_last_line(old: Seq<Segment>, new: Seq<Segment>, line: RawLine)
    requires
        last_line_replaced(old, new, line),
        last_line(old) is Some,
    ensures
        model::segment_texts(old).len() > 0,
        model::segment_texts(old).last() == last_line(old)->0,
        model::segment_texts(new) == model::segment_texts(old).update(
            model::segment_texts(old).len() - 1,
            line.0@,
        ),
{
    let prefix = old.drop_last();
    let old_last = old.last();
    let new_last = new.last();
    assert(old == prefix.push(old_last));
    assert(new == prefix.push(new_last));
    model::lemma_segment_texts_push(prefix, old_last);
    model::lemma_segment_texts_push(prefix, new_last);
    let t = old_last.texts();
    assert(t.len() > 0 && t.last() == last_line(old)->0);
    assert(new_last.texts() =~= t.update(t.len() - 1, line.0@));
}

proof fn lemma_flatten_extend_last(s: Seq<Seq<char>>, x: Seq<char>)
    requires
        s.len() > 0,
    ensures
        s.update(s.len() - 1, s.last() + x).flatten() == s.flatten() + x,
{
    broadcast use Seq::lemma_flatten_push;

    let p = s.drop_last();
    assert(s == p.push(s.last()));
    assert(s.update(s.len() - 1, s.last() + x) == p.push(s.last() + x));
}

proof fn lemma_rendered_single(s: Segment)
    ensures
        model::rendered(seq![s]) == s.texts().flatten(),
{
    broadcast use Seq::lemma_flatten_singleton;

    assert(seq![s].map_values(|s: Segment| s.texts()) == seq![s.texts()]);
}


/// The managed blocks stay where they are; anything added is a plain run.
pub open spec fn blocks_kept(old: Seq<Segment>, new: Seq<Segment>) -> bool {
    &&& old.len() <= new.len()
    &&& forall|i: int|
        0 <= i < old.len() ==> (#[trigger] new[i] is Managed <==> old[i] is Managed) && (
        old[i] is Managed ==> new[i] == old[i])
    &&& forall|i: int| old.len() <= i < new.len() ==> #[trigger] new[i] is Raw
}

/// Append one line, to the trailing run of plain lines or as a new one.
pub fn push_raw_line(segments: &mut Vec<Segment>, text: &str)
    ensures
        model::rendered(final(segments)@) == model::rendered(old(segments)@) + text@,
        model::segment_texts(final(segments)@) == model::segment_texts(old(segments)@).push(text@),
        blocks_kept(old(segments)@, final(segments)@),
        final(segments)@.len() > 0,
        final(segments)@.last() matches Segment::Raw(ls) && if old(segments)@.len() > 0 && old(
            segments,
        )@.last() is Raw {
            &&& final(segments)@.drop_last() == old(segments)@.drop_last()
            &&& model::line_texts(ls@) == model::line_texts(old(segments)@.last()->Raw_0@).push(text@)
        } else {
            &&& final(segments)@.drop_last() == old(segments)@
            &&& model::line_texts(ls@) == seq![text@]
        },
{
    broadcast use Seq::lemma_flatten_push;

    let ghost before = segments@;
    let n = segments.len();
    let mut appended = false;
    if n > 0 {
        let mut last = segments.pop().unwrap();
        assert(before == segments@.push(last));
        let ghost old_last = last;
        match &mut last {
            Segment::Raw(lines) => {
                lines.push(RawLine(String::from_str(text)));
                appended = true;
            },
            Segment::Managed(_) => {},
        }
        segments.push(last);
        proof {
            if appended {
                let prefix = before.drop_last();
                assert(before == prefix + seq![old_last]);
                assert(segments@ == prefix + seq![last]);
                model::lemma_rendered_concat(prefix, seq![old_last]);
                model::lemma_rendered_concat(prefix, seq![last]);
                lemma_rendered_single(old_last);
                lemma_rendered_single(last);
                assert(last.texts() == old_last.texts().push(text@));
                assert(segments@.drop_last() == prefix);
                assert(before == prefix.push(old_last));
                assert(segments@ == prefix.push(last));
                model::lemma_segment_texts_push(prefix, old_last);
                model::lemma_segment_texts_push(prefix, last);
            } else {
                assert(segments@ == before);
            }
        }
    }
    if !appended {
        let ghost mid = segments@;
        let one = vec![RawLine(String::from_str(text))];
        segments.push(Segment::Raw(one));
        proof {
            assert(segments@ == mid + seq![Segment::Raw(one)]);
            assert(segments@.drop_last() == mid);
            assert(mid == before);
            model::lemma_rendered_concat(mid, seq![Segment::Raw(one)]);
            lemma_rendered_single(Segment::Raw(one));
            assert(model::line_texts(one@) == seq![text@]);
            assert(segments@ == mid.push(Segment::Raw(one)));
            model::lemma_segment_texts_push(mid, Segment::Raw(one));
            assert(seq![text@].flatten() == text@) by {
                seq![text@].lemma_flatten_singleton();
            }
        }
    }
}

/// The lines of a document made appendable: none for an empty document; else its lines, the
/// last line given a `\n` when it lacks one, then one blank line.
pub open spec fn appendable_texts(old: Seq<Segment>) -> Seq<Seq<char>> {
    let ts = model::segment_texts(old);
    if old.len() == 0 {
        ts
    } else {
        (match last_line(old) {
            Some(l) => if lacks_newline(l) {
                ts.update(ts.len() - 1, l + lf())
            } else {
                ts
            },
            None => ts,
        }).push(lf())
    }
}

/// Make sure a brand-new block can be appended cleanly: terminate the file's last line if it was
/// missing a trailing newline, then add one blank separator line (skipped for an empty file).
pub fn ensure_appendable(segments: &mut Vec<Segment>)
    ensures
        model::segment_texts(final(segments)@) == appendable_texts(old(segments)@),
        old(segments)@.len() == 0 ==> final(segments)@ == old(segments)@,
        old(segments)@.len() > 0 ==> model::rendered(final(segments)@) == model::rendered(
            old(segments)@,
        ) + (match last_line(old(segments)@) {
            Some(l) => if lacks_newline(l) {
                lf()
            } else {
                Seq::<char>::empty()
            },
            None => Seq::<char>::empty(),
        }) + lf(),
        forall|a: Seq<char>| #[trigger] has_managed(final(segments)@, a) == has_managed(old(segments)@, a),
        old(segments)@.len() <= final(segments)@.len(),
        forall|i: int| 0 <= i < old(segments)@.len() - 1 ==> #[trigger] final(segments)@[i] == old(segments)@[i],
        forall|i: int|
            old(segments)@.len() <= i < final(segments)@.len() ==> (#[trigger] final(segments)@[i]) is Raw,
        same_blocks(old(segments)@, final(segments)@.take(old(segments)@.len() as int)),
        old(segments)@.len() > 0 ==> (final(segments)@.last() matches Segment::Raw(ls) && ls@.len() > 0
            && ls@.last().0@ == lf()),
{
    if segments.len() == 0 {
        assert(segments@.take(0) == segments@);
        return ;
    }
    let ghost before = segments@;
    proof {
        reveal_strlit("\n");
    }
    let ghost mut fin: Option<RawLine> = None;
    let ghost mut added: Seq<char> = Seq::empty();
    let ghost mut l0: Seq<char> = Seq::empty();
    if let Some(last) = last_raw_line_mut(segments) {
        proof {
            l0 = last.0@;
        }
        if !ends_with_newline(last.0.as_str()) {
            let t = concat_str(last.0.as_str(), "\n");
            last.0 = t;
            proof {
                added = lf();
            }
        } else {
            assert(last.0@ == last.0@ + Seq::<char>::empty());
        }
        proof {
            fin = Some(*last);
            let f = fin->0;
            assert(f.0@ == l0 + added);
        }
    }
    proof {
        if fin is Some {
            lemma_rendered_last_line(before, segments@, fin->0, added);
            lemma_segment_texts_last_line(before, segments@, fin->0);
            let ts = model::segment_texts(before);
            if !lacks_newline(l0) {
                assert(ts.update(ts.len() - 1, l0 + added) == ts);
            }
        } else {
            assert(model::rendered(segments@) == model::rendered(before) + added);
        }
    }
    let ghost mid = segments@;
    assert(mid.len() == before.len());
    assert forall|i: int| 0 <= i < before.len() - 1 implies #[trigger] mid[i] == before[i] by {
        if fin is None {
            assert(mid == before);
        }
    }
    proof {
        if fin is None {
            assert(mid == before);
        }
        assert(same_blocks(before, mid));
    }
    push_raw_line(segments, "\n");
    proof {
        if let Segment::Raw(ls) = segments@.last() {
            let lt = model::line_texts(ls@);
            assert(lt.len() > 0 && lt.last() == lf());
            assert(ls@.last().0@ == lt[lt.len() - 1]);
        }
        let ft = segments@.take(before.len() as int);
        if mid.len() > 0 && mid.last() is Raw {
            assert(segments@.drop_last() == mid.drop_last());
            assert(segments@.drop_last().len() == mid.drop_last().len());
            assert(segments@.len() == mid.len());
            assert(ft == segments@);
            assert forall|i: int| 0 <= i < before.len() - 1 implies #[trigger] ft[i] == before[i] by {
                assert(segments@.drop_last()[i] == mid.drop_last()[i]);
            }
        } else {
            assert(ft == segments@.drop_last());
            assert(ft == mid);
        }
        assert(same_blocks(before, ft));
        assert forall|i: int| 0 <= i < before.len() - 1 implies #[trigger] segments@[i] == before[i] by {
            assert(mid[i] == before[i]);
            if mid.len() > 0 && mid.last() is Raw {
                assert(segments@.drop_last()[i] == mid.drop_last()[i]);
            } else {
                assert(segments@.drop_last()[i] == mid[i]);
            }
        }
        assert forall|a: Seq<char>| #[trigger] has_managed(segments@, a) == has_managed(before, a) by {
            if has_managed(before, a) {
                let i = choose|i: int| 0 <= i < before.len() && is_managed_alias(#[trigger] before[i], a);
                assert(is_managed_alias(segments@[i], a));
            }
            if has_managed(segments@, a) {
                let i = choose|i: int| 0 <= i < segments@.len() && is_managed_alias(#[trigger] segments@[i], a);
                assert(is_managed_alias(before[i], a));
            }
        }
    }
}

pub fn port_value(host: &SshHost) -> (r: Option<String>)
    ensures
        host::opt_view(r) == match host.port {
            Some(p) => Some(host::decimal(p as nat)),
            None => None,
        },
{
    match host.port {
        Some(p) => Some(decimal_string(p as u64)),
        None => None,
    }
}

pub fn remove(segments: &mut Vec<Segment>, alias: &str) -> (removed: bool)
    ensures
        removed == has_managed(old(segments)@, alias@),
        removed ==> final(segments)@ == old(segments)@.remove(
            choose|i: int| is_first_managed(old(segments)@, alias@, i),
        ),
        !removed ==> final(segments)@ == old(segments)@,
{
    match find_managed_index(segments, alias) {
        Some(idx) => {
            proof {
                let c = choose|i: int| is_first_managed(segments@, alias@, i);
                lemma_first_managed_unique(segments@, alias@, idx as int, c);
            }
            segments.remove(idx);
            true
        },
        None => false,
    }
}

/// A document with a managed block for `alias` has a first one.
pub proof fn lemma_has_first_managed(segs: Seq<Segment>, alias: Seq<char>)
    requires
        has_managed(segs, alias),
    ensures
        exists|i: int| is_first_managed(segs, alias, i),
    decreases segs.len(),
{
    let p = segs.drop_last();
    if has_managed(p, alias) {
        lemma_has_first_managed(p, alias);
        let i = choose|i: int| is_first_managed(p, alias, i);
        assert(segs[i] == p[i]);
        assert forall|j: int| 0 <= j < i implies !is_managed_alias(#[trigger] segs[j], alias) by {
            assert(segs[j] == p[j]);
        }
        assert(is_first_managed(segs, alias, i));
    } else {
        let n = segs.len() - 1;
        let k = choose|k: int| 0 <= k < segs.len() && is_managed_alias(#[trigger] segs[k], alias);
        if k < n {
            assert(p[k] == segs[k]);
        }
        assert forall|j: int| 0 <= j < n implies !is_managed_alias(#[trigger] segs[j], alias) by {
            if is_managed_alias(segs[j], alias) {
                assert(p[j] == segs[j]);
            }
        }
        assert(is_first_managed(segs, alias, n));
    }
}

pub proof fn lemma_first_managed_unique(segs: Seq<Segment>, alias: Seq<char>, i: int, j: int)
    requires
        is_first_managed(segs, alias, i),
        is_first_managed(segs, alias, j),
    ensures
        i == j,
{
    if i < j {
        assert(is_managed_alias(segs[i], alias));
    }
    if j < i {
        assert(is_managed_alias(segs[j], alias));
    }
}


// ---------------------------------------------------------------------------------------------
// Longest-common-subsequence anchors
// ---------------------------------------------------------------------------------------------
pub open spec fn texts_of(a: Seq<String>) -> Seq<Seq<char>> {
    a.map_values(|s: String| s@)
}

pub open spec fn oriented<A>(s: Seq<A>, reverse: bool) -> Seq<A> {
    if reverse {
        s.reverse()
    } else {
        s
    }
}

// Longest-common-subsequence anchors, in linear space (Hirschberg), so advanced options
// can grow without a quadratic table. Equal lines keep their old slots, repeated
// directives and exact terminators included.
/// One row of the LCS table: `row[j]` is the LCS length of `a` and the first `j` lines of `b`,
/// both read backwards when `reverse` is set.
pub fn lcs_lengths(a: &[String], b: &[String], reverse: bool) -> (row: Vec<usize>)
    ensures
        row@.len() == b@.len() + 1,
        forall|j: int|
            0 <= j <= b@.len() ==> #[trigger] row@[j] == lcs::lcs(
                oriented(texts_of(a@), reverse),
                oriented(texts_of(b@), reverse).take(j),
            ),
{
    let ghost aa = oriented(texts_of(a@), reverse);
    let ghost bb = oriented(texts_of(b@), reverse);
    let n = b.len();
    let mut row: Vec<usize> = Vec::new();
    let mut j: usize = 0;
    while j < n
        invariant
            j <= n,
            row@.len() == j,
            forall|k: int| 0 <= k < j ==> #[trigger] row@[k] == 0,
        decreases n - j,
    {
        row.push(0);
        j += 1;
    }
    row.push(0);
    assert forall|k: int| 0 <= k <= n implies #[trigger] row@[k] == lcs::lcs(aa.take(0), bb.take(k)) by {
        assert(aa.take(0).len() == 0);
    }
    let mut i: usize = 0;
    while i < a.len()
        invariant
            n == b@.len(),
            aa == oriented(texts_of(a@), reverse),
            bb == oriented(texts_of(b@), reverse),
            aa.len() == a@.len(),
            bb.len() == b@.len(),
            i <= a@.len(),
            row@.len() == n + 1,
            forall|k: int| 0 <= k <= n ==> #[trigger] row@[k] == lcs::lcs(aa.take(i as int), bb.take(k)),
        decreases a.len() - i,
    {
        let mut diagonal: usize = 0;
        let mut j: usize = 0;
        assert(row@[0] == lcs::lcs(aa.take(i + 1), bb.take(0)));
        while j < n
            invariant
                n == b@.len(),
                aa == oriented(texts_of(a@), reverse),
                bb == oriented(texts_of(b@), reverse),
                aa.len() == a@.len(),
                bb.len() == b@.len(),
                i < a@.len(),
                j <= n,
                row@.len() == n + 1,
                forall|k: int| 0 <= k <= j ==> #[trigger] row@[k] == lcs::lcs(aa.take(i + 1), bb.take(k)),
                forall|k: int| j < k <= n ==> #[trigger] row@[k] == lcs::lcs(aa.take(i as int), bb.take(k)),
                diagonal == lcs::lcs(aa.take(i as int), bb.take(j as int)),
            decreases n - j,
        {
            let old = row[j + 1];
            let ai: usize = if reverse {
                a.len() - 1 - i
            } else {
                i
            };
            let bj: usize = if reverse {
                n - 1 - j
            } else {
                j
            };
            proof {
                lcs::lemma_lcs_bounds(aa.take(i as int), bb.take(j as int));
                assert(aa[i as int] == texts_of(a@)[ai as int]);
                assert(bb[j as int] == texts_of(b@)[bj as int]);
                assert(aa.take(i + 1).drop_last() == aa.take(i as int));
                assert(bb.take(j + 1).drop_last() == bb.take(j as int));
                assert(aa.take(i + 1).last() == aa[i as int]);
                assert(bb.take(j + 1).last() == bb[j as int]);
            }
            let v = if a[ai] == b[bj] {
                diagonal + 1
            } else if row[j + 1] >= row[j] {
                row[j + 1]
            } else {
                row[j]
            };
            row.set(j + 1, v);
            diagonal = old;
            j += 1;
        }
        i += 1;
    }
    proof {
        assert(aa.take(a@.len() as int) == aa);
    }
    row
}

/// Number of equal lines at the start of both `a` and `b`.
pub open spec fn prefix_len(a: Seq<Seq<char>>, b: Seq<Seq<char>>) -> nat
    decreases a.len(),
{
    if a.len() > 0 && b.len() > 0 && a[0] == b[0] {
        1 + prefix_len(a.drop_first(), b.drop_first())
    } else {
        0
    }
}

/// Number of equal lines at the end of both `a` and `b`.
pub open spec fn suffix_len(a: Seq<Seq<char>>, b: Seq<Seq<char>>) -> nat
    decreases a.len(),
{
    if a.len() > 0 && b.len() > 0 && a.last() == b.last() {
        1 + suffix_len(a.drop_last(), b.drop_last())
    } else {
        0
    }
}

/// Position of the first line of `b` equal to `x`, or `b.len()` when there is none.
pub open spec fn first_at(b: Seq<Seq<char>>, x: Seq<char>) -> nat
    decreases b.len(),
{
    if b.len() == 0 {
        0
    } else if b[0] == x {
        0
    } else {
        1 + first_at(b.drop_first(), x)
    }
}

/// The two LCS lengths when `a` is cut at `mid` and `b` at `j`.
pub open spec fn split_score(a: Seq<Seq<char>>, b: Seq<Seq<char>>, mid: int, j: int) -> nat {
    lcs::lcs(a.take(mid), b.take(j)) + lcs::lcs(a.skip(mid), b.skip(j))
}

/// Among the cuts `0..upto` of `b`, the last with the best score.
pub open spec fn best_split(a: Seq<Seq<char>>, b: Seq<Seq<char>>, mid: int, upto: int) -> int
    decreases upto,
{
    if upto <= 1 {
        0
    } else {
        let s = best_split(a, b, mid, upto - 1);
        if split_score(a, b, mid, upto - 1) >= split_score(a, b, mid, s) {
            upto - 1
        } else {
            s
        }
    }
}

pub proof fn lemma_best_split_range(a: Seq<Seq<char>>, b: Seq<Seq<char>>, mid: int, upto: int)
    ensures
        0 <= best_split(a, b, mid, upto),
        upto >= 1 ==> best_split(a, b, mid, upto) < upto,
    decreases upto,
{
    if upto > 1 {
        lemma_best_split_range(a, b, mid, upto - 1);
    }
}

pub proof fn lemma_prefix_suffix_bounds(a: Seq<Seq<char>>, b: Seq<Seq<char>>)
    ensures
        prefix_len(a, b) <= a.len(),
        prefix_len(a, b) <= b.len(),
        suffix_len(a, b) <= a.len(),
        suffix_len(a, b) <= b.len(),
    decreases a.len(),
{
    if a.len() > 0 && b.len() > 0 {
        lemma_prefix_suffix_bounds(a.drop_first(), b.drop_first());
        lemma_prefix_suffix_bounds(a.drop_last(), b.drop_last());
    }
}

/// The pairs `(o.0 + i, o.1 + i)` for `i < n`.
pub open spec fn diagonal(o: (int, int), n: int) -> Seq<(usize, usize)> {
    Seq::new(n as nat, |i: int| ((o.0 + i) as usize, (o.1 + i) as usize))
}

/// The anchors the editor picks between old lines `a` and new lines `b`, shifted by `o`: nothing
/// when either is empty; for one old line, its first equal new line; else the equal lines at
/// both ends, then the middle; and with no equal ends, `a` is halved and `b` is cut at the last
/// best place (Hirschberg).
#[verifier::opaque]
pub open spec fn hirschberg(a: Seq<Seq<char>>, b: Seq<Seq<char>>, o: (int, int)) -> Seq<(usize, usize)>
    decreases a.len(),
{
    if a.len() == 0 || b.len() == 0 {
        seq![]
    } else if a.len() == 1 {
        let j = first_at(b, a[0]);
        if j < b.len() {
            seq![(o.0 as usize, (o.1 + j) as usize)]
        } else {
            seq![]
        }
    } else {
        let p = prefix_len(a, b) as int;
        let s = suffix_len(a.skip(p), b.skip(p)) as int;
        proof {
            lemma_prefix_suffix_bounds(a, b);
            lemma_prefix_suffix_bounds(a.skip(p), b.skip(p));
        }
        if p + s > 0 {
            diagonal(o, p) + hirschberg(
                a.subrange(p, a.len() - s),
                b.subrange(p, b.len() - s),
                (o.0 + p, o.1 + p),
            ) + diagonal((o.0 + a.len() - s, o.1 + b.len() - s), s)
        } else {
            let mid = a.len() / 2;
            let sp = best_split(a, b, mid as int, (b.len() + 1) as int);
            proof {
                lemma_best_split_range(a, b, mid as int, (b.len() + 1) as int);
            }
            hirschberg(a.take(mid as int), b.take(sp), o) + hirschberg(
                a.skip(mid as int),
                b.skip(sp),
                (o.0 + mid, o.1 + sp),
            )
        }
    }
}

pub proof fn lemma_hirschberg_small(a: Seq<Seq<char>>, b: Seq<Seq<char>>, o: (int, int))
    requires
        a.len() <= 1 || b.len() == 0,
    ensures
        a.len() == 0 || b.len() == 0 ==> hirschberg(a, b, o) == Seq::<(usize, usize)>::empty(),
        a.len() == 1 && b.len() > 0 && first_at(b, a[0]) < b.len() ==> hirschberg(a, b, o) == seq![
            (o.0 as usize, (o.1 + first_at(b, a[0])) as usize),
        ],
        a.len() == 1 && b.len() > 0 && first_at(b, a[0]) >= b.len() ==> hirschberg(a, b, o)
            == Seq::<(usize, usize)>::empty(),
{
    reveal(hirschberg);
}

pub proof fn lemma_hirschberg_trim(a: Seq<Seq<char>>, b: Seq<Seq<char>>, o: (int, int), p: int, s: int)
    requires
        a.len() > 1,
        b.len() > 0,
        p == prefix_len(a, b),
        s == suffix_len(a.skip(p), b.skip(p)),
        p + s > 0,
    ensures
        hirschberg(a, b, o) == diagonal(o, p) + hirschberg(
            a.subrange(p, a.len() - s),
            b.subrange(p, b.len() - s),
            (o.0 + p, o.1 + p),
        ) + diagonal((o.0 + a.len() - s, o.1 + b.len() - s), s),
{
    reveal(hirschberg);
}

pub proof fn lemma_hirschberg_split(a: Seq<Seq<char>>, b: Seq<Seq<char>>, o: (int, int), sp: int)
    requires
        a.len() > 1,
        b.len() > 0,
        prefix_len(a, b) == 0,
        suffix_len(a, b) == 0,
        sp == best_split(a, b, (a.len() / 2) as int, (b.len() + 1) as int),
    ensures
        hirschberg(a, b, o) == hirschberg(a.take((a.len() / 2) as int), b.take(sp), o) + hirschberg(
            a.skip((a.len() / 2) as int),
            b.skip(sp),
            (o.0 + a.len() / 2, o.1 + sp),
        ),
{
    reveal(hirschberg);
    assert(a.skip(0) == a);
    assert(b.skip(0) == b);
}

/// `prefix_len` is the first index where the two differ.
pub proof fn lemma_prefix_len_is(a: Seq<Seq<char>>, b: Seq<Seq<char>>, k: int)
    requires
        0 <= k <= a.len(),
        k <= b.len(),
        forall|i: int| 0 <= i < k ==> a[i] == b[i],
        k == a.len() || k == b.len() || a[k] != b[k],
    ensures
        prefix_len(a, b) == k,
    decreases k,
{
    if k > 0 {
        assert(a[0] == b[0]);
        let a1 = a.drop_first();
        let b1 = b.drop_first();
        assert forall|i: int| 0 <= i < k - 1 implies a1[i] == b1[i] by {
            assert(a[i + 1] == b[i + 1]);
        }
        lemma_prefix_len_is(a1, b1, k - 1);
    } else if a.len() > 0 && b.len() > 0 {
        assert(a[0] != b[0]);
    }
}

/// `suffix_len` is the first index from the end where the two differ.
pub proof fn lemma_suffix_len_is(a: Seq<Seq<char>>, b: Seq<Seq<char>>, k: int)
    requires
        0 <= k <= a.len(),
        k <= b.len(),
        forall|i: int| a.len() - k <= i < a.len() ==> #[trigger] a[i] == b[i - a.len() + b.len()],
        k == a.len() || k == b.len() || a[a.len() - 1 - k] != b[b.len() - 1 - k],
    ensures
        suffix_len(a, b) == k,
    decreases k,
{
    if k > 0 {
        assert(a[a.len() - 1] == b[b.len() - 1]);
        let a1 = a.drop_last();
        let b1 = b.drop_last();
        assert forall|i: int| a1.len() - (k - 1) <= i < a1.len() implies #[trigger] a1[i] == b1[i - a1.len() + b1.len()] by {
            assert(a[i] == b[i - a.len() + b.len()]);
        }
        if k - 1 < a1.len() && k - 1 < b1.len() {
            assert(a1[a1.len() - 1 - (k - 1)] == a[a.len() - 1 - k]);
            assert(b1[b1.len() - 1 - (k - 1)] == b[b.len() - 1 - k]);
        }
        lemma_suffix_len_is(a1, b1, k - 1);
    } else if a.len() > 0 && b.len() > 0 {
        assert(a.last() != b.last());
    }
}

/// `first_at` is the first index holding `x`.
pub proof fn lemma_first_at_is(b: Seq<Seq<char>>, x: Seq<char>, j: int)
    requires
        0 <= j <= b.len(),
        forall|i: int| 0 <= i < j ==> b[i] != x,
        j == b.len() || b[j] == x,
    ensures
        first_at(b, x) == j,
    decreases j,
{
    if j > 0 {
        assert(b[0] != x);
        let b1 = b.drop_first();
        assert forall|i: int| 0 <= i < j - 1 implies b1[i] != x by {
            assert(b[i + 1] != x);
        }
        lemma_first_at_is(b1, x, j - 1);
    }
}

/// What `common_prefix` and `common_suffix` return, read over the texts.
proof fn lemma_trimmed_ends(a: Seq<String>, b: Seq<String>, prefix: int, suffix: int)
    requires
        0 <= prefix,
        0 <= suffix,
        prefix + suffix <= a.len(),
        prefix + suffix <= b.len(),
        forall|i: int| 0 <= i < prefix ==> a[i]@ == b[i]@,
        prefix == a.len() || prefix == b.len() || a[prefix]@ != b[prefix]@,
        forall|i: int| a.len() - suffix <= i < a.len() ==> (#[trigger] a[i])@ == b[i - a.len() + b.len()]@,
        prefix + suffix == a.len() || prefix + suffix == b.len() || a[a.len() - 1 - suffix]@ != b[b.len() - 1 - suffix]@,
    ensures
        prefix_len(texts_of(a), texts_of(b)) == prefix,
        suffix_len(texts_of(a).skip(prefix), texts_of(b).skip(prefix)) == suffix,
        forall|i: int| 0 <= i < prefix ==> texts_of(a)[i] == texts_of(b)[i],
        forall|i: int| a.len() - suffix <= i < a.len() ==> #[trigger] texts_of(a)[i] == texts_of(b)[i - a.len() + b.len()],
{
    let ta = texts_of(a);
    let tb = texts_of(b);
    assert forall|i: int| 0 <= i < prefix implies ta[i] == tb[i] by {
        assert(a[i]@ == b[i]@);
    }
    lemma_prefix_len_is(ta, tb, prefix);
    let sa = ta.skip(prefix);
    let sb = tb.skip(prefix);
    assert forall|i: int| sa.len() - suffix <= i < sa.len() implies #[trigger] sa[i] == sb[i - sa.len() + sb.len()] by {
        assert(a[i + prefix]@ == b[i + prefix - a.len() + b.len()]@);
    }
    lemma_suffix_len_is(sa, sb, suffix);
    assert forall|i: int| a.len() - suffix <= i < a.len() implies #[trigger] ta[i] == tb[i - a.len() + b.len()] by {
        assert(a[i]@ == b[i - a.len() + b.len()]@);
    }
}

/// Matching the equal ends line by line around the anchors of the middle gives a longest
/// matching, and the one `hirschberg` describes.
proof fn lemma_trim_result(
    pre: Seq<(usize, usize)>,
    mid: Seq<(usize, usize)>,
    suf: Seq<(usize, usize)>,
    ta: Seq<Seq<char>>,
    tb: Seq<Seq<char>>,
    offset: (usize, usize),
    prefix: int,
    suffix: int,
)
    requires
        ta.len() > 1,
        tb.len() > 0,
        prefix == prefix_len(ta, tb),
        suffix == suffix_len(ta.skip(prefix), tb.skip(prefix)),
        prefix + suffix > 0,
        prefix >= 0,
        suffix >= 0,
        prefix + suffix <= ta.len(),
        prefix + suffix <= tb.len(),
        offset.0 + ta.len() <= usize::MAX,
        offset.1 + tb.len() <= usize::MAX,
        forall|i: int| 0 <= i < prefix ==> ta[i] == tb[i],
        forall|i: int| ta.len() - suffix <= i < ta.len() ==> #[trigger] ta[i] == tb[i - ta.len() + tb.len()],
        pre == diagonal((offset.0 as int, offset.1 as int), prefix),
        suf == diagonal((offset.0 + ta.len() - suffix, offset.1 + tb.len() - suffix), suffix),
        lcs::is_matching(
            mid,
            ta.subrange(prefix, ta.len() - suffix),
            tb.subrange(prefix, tb.len() - suffix),
            ((offset.0 + prefix) as usize, (offset.1 + prefix) as usize),
        ),
        mid.len() == lcs::lcs(ta.subrange(prefix, ta.len() - suffix), tb.subrange(prefix, tb.len() - suffix)),
        mid == hirschberg(
            ta.subrange(prefix, ta.len() - suffix),
            tb.subrange(prefix, tb.len() - suffix),
            (offset.0 + prefix, offset.1 + prefix),
        ),
    ensures
        lcs::is_matching(pre + mid + suf, ta, tb, offset),
        (pre + mid + suf).len() == lcs::lcs(ta, tb),
        pre + mid + suf == hirschberg(ta, tb, (offset.0 as int, offset.1 as int)),
{
    let p = ta.len() - prefix - suffix;
    let q = tb.len() - prefix - suffix;
    assert(lcs::is_matching(pre, ta.take(prefix), tb.take(prefix), offset)) by {
        assert forall|k: int| 0 <= k < pre.len() implies #[trigger] pre[k] == ((offset.0 + k) as usize, (offset.1 + k) as usize) by {}
    }
    assert(ta.subrange(prefix, ta.len() - suffix) == ta.skip(prefix).take(p));
    assert(tb.subrange(prefix, tb.len() - suffix) == tb.skip(prefix).take(q));
    assert(lcs::is_matching(suf, ta.skip(prefix).skip(p), tb.skip(prefix).skip(q), ((offset.0 + prefix + p) as usize, (offset.1 + prefix + q) as usize))) by {
        assert forall|k: int| 0 <= k < suffix implies ta.skip(prefix).skip(p)[k] == tb.skip(prefix).skip(q)[k] by {
            let i = ta.len() - suffix + k;
            assert(ta[i] == tb[i - ta.len() + tb.len()]);
        }
    }
    lcs::lemma_matching_concat(mid, suf, ta.skip(prefix), tb.skip(prefix), ((offset.0 + prefix) as usize, (offset.1 + prefix) as usize), p, q);
    lcs::lemma_matching_concat(pre, mid + suf, ta, tb, offset, prefix, prefix);
    assert(pre + mid + suf == pre + (mid + suf));
    let pa = ta.take(prefix);
    let xa = ta.skip(prefix).take(p);
    let xb = tb.skip(prefix).take(q);
    let sa = ta.skip(prefix).skip(p);
    assert(ta == pa + xa + sa);
    assert(tb.take(prefix) == pa);
    assert(tb.skip(prefix).skip(q) == sa) by {
        assert forall|k: int| 0 <= k < suffix implies tb.skip(prefix).skip(q)[k] == sa[k] by {
            let i = ta.len() - suffix + k;
            assert(ta[i] == tb[i - ta.len() + tb.len()]);
        }
    }
    assert(tb == pa + xb + sa);
    lcs::lemma_lcs_common_suffix(pa + xa, pa + xb, sa);
    lcs::lemma_lcs_common_prefix(pa, xa, xb);
    lemma_hirschberg_trim(ta, tb, (offset.0 as int, offset.1 as int), prefix, suffix);
}

fn common_prefix(a: &[String], b: &[String]) -> (k: usize)
    ensures
        k <= a@.len(),
        k <= b@.len(),
        forall|i: int| 0 <= i < k ==> a@[i]@ == b@[i]@,
        k == a@.len() || k == b@.len() || a@[k as int]@ != b@[k as int]@,
{
    let mut k: usize = 0;
    while k < a.len() && k < b.len() && a[k] == b[k]
        invariant
            k <= a@.len(),
            k <= b@.len(),
            forall|i: int| 0 <= i < k ==> a@[i]@ == b@[i]@,
        decreases a.len() - k,
    {
        k += 1;
    }
    k
}

fn common_suffix(a: &[String], b: &[String], from: usize) -> (k: usize)
    requires
        from <= a@.len(),
        from <= b@.len(),
    ensures
        from + k <= a@.len(),
        from + k <= b@.len(),
        forall|i: int| a@.len() - k <= i < a@.len() ==> (#[trigger] a@[i])@ == b@[i - a@.len() + b@.len()]@,
        from + k == a@.len() || from + k == b@.len() || a@[a@.len() - 1 - k]@ != b@[b@.len() - 1 - k]@,
{
    let mut k: usize = 0;
    while k < a.len() - from && k < b.len() - from && a[a.len() - 1 - k] == b[b.len() - 1 - k]
        invariant
            from <= a@.len(),
            from <= b@.len(),
            from + k <= a@.len(),
            from + k <= b@.len(),
            forall|i: int| a@.len() - k <= i < a@.len() ==> (#[trigger] a@[i])@ == b@[i - a@.len() + b@.len()]@,
        decreases a.len() - k,
    {
        k += 1;
    }
    k
}

/// Append to `out` a longest common subsequence of `a` and `b` as index pairs shifted by
/// `offset`, the one `hirschberg` describes: equal ends are matched directly, the middle by
/// splitting `a` in half where the two LCS rows meet best, the last such place.
#[verifier::spinoff_prover]
#[verifier::rlimit(40)]
pub fn anchors(a: &[String], b: &[String], offset: (usize, usize), out: &mut Vec<(usize, usize)>)
    requires
        offset.0 + a@.len() <= usize::MAX,
        offset.1 + b@.len() <= usize::MAX,
    ensures
        final(out)@.len() >= old(out)@.len(),
        final(out)@.take(old(out)@.len() as int) == old(out)@,
        lcs::is_matching(
            final(out)@.skip(old(out)@.len() as int),
            texts_of(a@),
            texts_of(b@),
            offset,
        ),
        final(out)@.len() - old(out)@.len() == lcs::lcs(texts_of(a@), texts_of(b@)),
        final(out)@ == old(out)@ + hirschberg(texts_of(a@), texts_of(b@), (offset.0 as int, offset.1 as int)),
    decreases a@.len(), 1nat,
{
    let ghost start = out@;
    let ghost ta = texts_of(a@);
    let ghost tb = texts_of(b@);
    if a.len() == 0 || b.len() == 0 {
        assert(out@.skip(start.len() as int).len() == 0);
        assert(out@ == start + Seq::<(usize, usize)>::empty());
        proof {
            lemma_hirschberg_small(ta, tb, (offset.0 as int, offset.1 as int));
        }
        return ;
    }
    if a.len() == 1 {
        let mut j: usize = 0;
        while j < b.len()
            invariant
                j <= b@.len(),
                a@.len() == 1,
                out@ == start,
                start == old(out)@,
                offset.1 + b@.len() <= usize::MAX,
                offset.0 + a@.len() <= usize::MAX,
                ta == texts_of(a@),
                tb == texts_of(b@),
                forall|k: int| 0 <= k < j ==> b@[k]@ != a@[0]@,
            decreases b.len() - j,
        {
            if b[j] == a[0] {
                out.push((offset.0, offset.1 + j));
                proof {
                    let p = out@.skip(start.len() as int);
                    assert(p == seq![(offset.0, (offset.1 + j) as usize)]);
                    assert(ta[0] == a@[0]@);
                    assert(tb[j as int] == b@[j as int]@);
                    assert(ta == seq![ta[0]]);
                    lcs::lemma_lcs_single(ta[0], tb);
                    assert(tb.contains(ta[0]));
                    assert forall|k: int| 0 <= k < j implies tb[k] != ta[0] by {
                        assert(b@[k]@ != a@[0]@);
                    }
                    lemma_first_at_is(tb, ta[0], j as int);
                    lemma_hirschberg_small(ta, tb, (offset.0 as int, offset.1 as int));
                    assert(out@ == start + p);
                }
                return ;
            }
            j += 1;
        }
        assert(out@.skip(start.len() as int).len() == 0);
        proof {
            assert(ta == seq![ta[0]]);
            lcs::lemma_lcs_single(ta[0], tb);
            assert(!tb.contains(ta[0])) by {
                if tb.contains(ta[0]) {
                    let k = choose|k: int| 0 <= k < tb.len() && tb[k] == ta[0];
                    assert(b@[k]@ != a@[0]@);
                }
            }
            assert forall|k: int| 0 <= k < tb.len() implies tb[k] != ta[0] by {
                assert(b@[k]@ != a@[0]@);
            }
            lemma_first_at_is(tb, ta[0], tb.len() as int);
            lemma_hirschberg_small(ta, tb, (offset.0 as int, offset.1 as int));
            assert(out@ == start + Seq::<(usize, usize)>::empty());
        }
        return ;
    }
    // Trim unchanged ends before the dynamic-programming step. A small edit to
    // a large advanced-options block should only compare the changed middle.
    let prefix = common_prefix(a, b);
    let suffix = common_suffix(a, b, prefix);
    proof {
        lemma_trimmed_ends(a@, b@, prefix as int, suffix as int);
    }
    if prefix + suffix > 0 {
        anchors_around(a, b, offset, out, prefix, suffix);
        return ;
    }
    proof {
        assert(ta.skip(0) == ta && tb.skip(0) == tb);
    }
    anchors_halves(a, b, offset, out);
}

/// The anchors when `a` and `b` share `prefix` lines at the start and `suffix` more at the end:
/// those pairs, around the anchors of the middle.
#[verifier::spinoff_prover]
#[verifier::rlimit(40)]
fn anchors_around(
    a: &[String],
    b: &[String],
    offset: (usize, usize),
    out: &mut Vec<(usize, usize)>,
    prefix: usize,
    suffix: usize,
)
    requires
        offset.0 + a@.len() <= usize::MAX,
        offset.1 + b@.len() <= usize::MAX,
        a@.len() > 1,
        b@.len() > 0,
        prefix + suffix > 0,
        prefix + suffix <= a@.len(),
        prefix + suffix <= b@.len(),
        prefix == prefix_len(texts_of(a@), texts_of(b@)),
        suffix == suffix_len(texts_of(a@).skip(prefix as int), texts_of(b@).skip(prefix as int)),
        forall|i: int| 0 <= i < prefix ==> texts_of(a@)[i] == texts_of(b@)[i],
        forall|i: int| a@.len() - suffix <= i < a@.len() ==> #[trigger] texts_of(a@)[i] == texts_of(b@)[i - a@.len() + b@.len()],
    ensures
        final(out)@.len() >= old(out)@.len(),
        final(out)@.take(old(out)@.len() as int) == old(out)@,
        lcs::is_matching(
            final(out)@.skip(old(out)@.len() as int),
            texts_of(a@),
            texts_of(b@),
            offset,
        ),
        final(out)@.len() - old(out)@.len() == lcs::lcs(texts_of(a@), texts_of(b@)),
        final(out)@ == old(out)@ + hirschberg(texts_of(a@), texts_of(b@), (offset.0 as int, offset.1 as int)),
    decreases a@.len(), 0nat,
{
    let ghost start = out@;
    let ghost ta = texts_of(a@);
    let ghost tb = texts_of(b@);
    let mut i: usize = 0;
    while i < prefix
        invariant
            i <= prefix,
            prefix <= a@.len(),
            prefix <= b@.len(),
            offset.0 + a@.len() <= usize::MAX,
            offset.1 + b@.len() <= usize::MAX,
            out@.len() == start.len() + i,
            out@.take(start.len() as int) == start,
            forall|k: int| 0 <= k < i ==> #[trigger] out@[start.len() + k] == ((offset.0 + k) as usize, (offset.1 + k) as usize),
        decreases prefix - i,
    {
        out.push((offset.0 + i, offset.1 + i));
        i += 1;
    }
    let ghost mid_start = out@;
    let sub_a = &a[prefix..a.len() - suffix];
    let sub_b = &b[prefix..b.len() - suffix];
    anchors(sub_a, sub_b, (offset.0 + prefix, offset.1 + prefix), out);
    let ghost after_mid = out@;
    let mut i: usize = 0;
    while i < suffix
        invariant
            i <= suffix,
            prefix + suffix <= a@.len(),
            prefix + suffix <= b@.len(),
            offset.0 + a@.len() <= usize::MAX,
            offset.1 + b@.len() <= usize::MAX,
            out@.len() == after_mid.len() + i,
            out@.take(after_mid.len() as int) == after_mid,
            forall|k: int| 0 <= k < i ==> #[trigger] out@[after_mid.len() + k] == ((offset.0 + a@.len() - suffix + k) as usize, (offset.1 + b@.len() - suffix + k) as usize),
        decreases suffix - i,
    {
        out.push((offset.0 + a.len() - suffix + i, offset.1 + b.len() - suffix + i));
        i += 1;
    }
    proof {
        let pre = mid_start.skip(start.len() as int);
        let mid = after_mid.skip(mid_start.len() as int);
        let suf = out@.skip(after_mid.len() as int);
        let o = (offset.0 as int, offset.1 as int);
        assert(pre == diagonal(o, prefix as int)) by {
            assert forall|k: int| 0 <= k < prefix implies #[trigger] pre[k] == diagonal(o, prefix as int)[k] by {
                assert(pre[k] == mid_start[start.len() + k]);
            }
        }
        assert(suf == diagonal((o.0 + a@.len() - suffix, o.1 + b@.len() - suffix), suffix as int)) by {
            assert forall|k: int| 0 <= k < suffix implies #[trigger] suf[k] == diagonal((o.0 + a@.len() - suffix, o.1 + b@.len() - suffix), suffix as int)[k] by {
                assert(suf[k] == out@[after_mid.len() + k]);
            }
        }
        assert(texts_of(sub_a@) == ta.subrange(prefix as int, a@.len() - suffix));
        assert(texts_of(sub_b@) == tb.subrange(prefix as int, b@.len() - suffix));
        assert(((offset.0 + prefix) as usize) as int == offset.0 + prefix);
        assert(((offset.1 + prefix) as usize) as int == offset.1 + prefix);
        let h = hirschberg(texts_of(sub_a@), texts_of(sub_b@), (offset.0 + prefix, offset.1 + prefix));
        assert(after_mid == mid_start + h);
        assert(mid == h);
        lemma_trim_result(pre, mid, suf, ta, tb, offset, prefix as int, suffix as int);
        assert(out@.take(start.len() as int) == start);
        assert(out@.skip(start.len() as int) == pre + mid + suf);
        assert(out@ == start + (pre + mid + suf));
    }
}

/// The anchors when `a` and `b` differ at both ends: `a` is halved, `b` is cut where the LCS
/// lengths of the two halves add up best, and each half is matched on its own.
#[verifier::spinoff_prover]
#[verifier::rlimit(40)]
fn anchors_halves(a: &[String], b: &[String], offset: (usize, usize), out: &mut Vec<(usize, usize)>)
    requires
        offset.0 + a@.len() <= usize::MAX,
        offset.1 + b@.len() <= usize::MAX,
        a@.len() > 1,
        b@.len() > 0,
        prefix_len(texts_of(a@), texts_of(b@)) == 0,
        suffix_len(texts_of(a@), texts_of(b@)) == 0,
    ensures
        final(out)@.len() >= old(out)@.len(),
        final(out)@.take(old(out)@.len() as int) == old(out)@,
        lcs::is_matching(
            final(out)@.skip(old(out)@.len() as int),
            texts_of(a@),
            texts_of(b@),
            offset,
        ),
        final(out)@.len() - old(out)@.len() == lcs::lcs(texts_of(a@), texts_of(b@)),
        final(out)@ == old(out)@ + hirschberg(texts_of(a@), texts_of(b@), (offset.0 as int, offset.1 as int)),
    decreases a@.len(), 0nat,
{
    let ghost start = out@;
    let ghost ta = texts_of(a@);
    let ghost tb = texts_of(b@);
    let mid = a.len() / 2;
    let left = lcs_lengths(&a[0..mid], b, false);
    let right = lcs_lengths(&a[mid..a.len()], b, true);
    let n = b.len();
    let m = left.len();
    proof {
        assert(texts_of(a@.subrange(0, mid as int)) == ta.take(mid as int));
        assert(texts_of(a@.subrange(mid as int, a@.len() as int)) == ta.skip(mid as int));
        assert forall|k: int| 0 <= k <= n implies #[trigger] left@[k] == lcs::lcs(ta.take(mid as int), tb.take(k)) by {}
        assert forall|k: int| 0 <= k <= n implies #[trigger] right@[n - k] == lcs::lcs(ta.skip(mid as int), tb.skip(k)) by {
            let a2 = ta.skip(mid as int);
            assert(tb.reverse().take(n - k) =~= tb.skip(k).reverse());
            lcs::lemma_lcs_reverse(a2, tb.skip(k));
        }
        assert forall|k: int| 0 <= k <= n implies #[trigger] left@[k] <= mid by {
            lcs::lemma_lcs_bounds(
                oriented(texts_of(a@.subrange(0, mid as int)), false),
                oriented(texts_of(b@), false).take(k),
            );
        }
        assert forall|k: int| 0 <= k <= n implies #[trigger] right@[k] <= a@.len() - mid by {
            lcs::lemma_lcs_bounds(
                oriented(texts_of(a@.subrange(mid as int, a@.len() as int)), true),
                oriented(texts_of(b@), true).take(k),
            );
        }
    }
    let mut split: usize = 0;
    let mut best: usize = 0;
    let mut j: usize = 0;
    while j < m
        invariant
            j <= n + 1,
            m == n + 1,
            n == b@.len(),
            left@.len() == n + 1,
            right@.len() == n + 1,
            mid <= a@.len(),
            offset.0 + a@.len() <= usize::MAX,
            forall|k: int| 0 <= k <= n ==> #[trigger] left@[k] <= mid,
            forall|k: int| 0 <= k <= n ==> #[trigger] right@[k] <= a@.len() - mid,
            split <= n,
            ta == texts_of(a@),
            tb == texts_of(b@),
            forall|k: int| 0 <= k <= n ==> #[trigger] left@[k] == lcs::lcs(ta.take(mid as int), tb.take(k)),
            forall|k: int| 0 <= k <= n ==> #[trigger] right@[n - k] == lcs::lcs(ta.skip(mid as int), tb.skip(k)),
            j > 0 ==> split < j && best == left@[split as int] + right@[n - split],
            j > 0 ==> split == best_split(ta, tb, mid as int, j as int),
            forall|k: int| 0 <= k < j ==> #[trigger] left@[k] + right@[n - k] <= best,
        decreases n + 1 - j,
    {
        proof {
            if j > 0 {
                assert(split_score(ta, tb, mid as int, j as int) == left@[j as int] + right@[n - j]);
                assert(split_score(ta, tb, mid as int, split as int) == left@[split as int] + right@[n - split]);
            }
        }
        assert(left@[j as int] <= mid && right@[n - j] <= a@.len() - mid);
        let score = left[j] + right[n - j];
        if j == 0 || score >= best {
            best = score;
            split = j;
        }
        j += 1;
    }
    proof {
        lcs::lemma_lcs_split(ta, tb, mid as int);
        let w = choose|w: int|
            0 <= w <= tb.len() && #[trigger] lcs::lcs(ta.take(mid as int), tb.take(w)) + lcs::lcs(ta.skip(mid as int), tb.skip(w))
                == lcs::lcs(ta, tb);
        assert(left@[w] + right@[n - w] <= best);
        assert(best == lcs::lcs(ta.take(mid as int), tb.take(split as int)) + lcs::lcs(ta.skip(mid as int), tb.skip(split as int)));
        assert(best == lcs::lcs(ta, tb));
    }
    let ghost before_left = out@;
    anchors(&a[0..mid], &b[0..split], offset, out);
    let ghost after_left = out@;
    anchors(&a[mid..a.len()], &b[split..b.len()], (offset.0 + mid, offset.1 + split), out);
    proof {
        let p1 = after_left.skip(before_left.len() as int);
        let p2 = out@.skip(after_left.len() as int);
        assert(texts_of(a@.subrange(0, mid as int)) == ta.take(mid as int));
        assert(texts_of(b@.subrange(0, split as int)) == tb.take(split as int));
        assert(texts_of(a@.subrange(mid as int, a@.len() as int)) == ta.skip(mid as int));
        assert(texts_of(b@.subrange(split as int, b@.len() as int)) == tb.skip(split as int));
        assert(out@.skip(start.len() as int) == p1 + p2);
        assert(out@.take(start.len() as int) == start);
        lcs::lemma_matching_concat(p1, p2, ta, tb, offset, mid as int, split as int);
        assert(p1.len() == lcs::lcs(ta.take(mid as int), tb.take(split as int)));
        assert(p2.len() == lcs::lcs(ta.skip(mid as int), tb.skip(split as int)));
        assert(after_left == before_left + p1);
        assert(ta.skip(0) == ta && tb.skip(0) == tb);
        lemma_hirschberg_split(ta, tb, (offset.0 as int, offset.1 as int), split as int);
        assert(out@ == start + (p1 + p2));
    }}


// ---------------------------------------------------------------------------------------------
// Advanced options
// ---------------------------------------------------------------------------------------------
/// A line terminator: nothing, `\n` or `\r\n`.
pub open spec fn is_term(t: Seq<char>) -> bool {
    t == Seq::<char>::empty() || t == lf() || t == crlf()
}

/// `raw` is the line `c` followed by a terminator.
pub open spec fn has_content(raw: Seq<char>, c: Seq<char>) -> bool {
    &&& c.len() <= raw.len()
    &&& raw.take(c.len() as int) == c
    &&& is_term(raw.skip(c.len() as int))
}

/// The `Known` lines, in order.
pub open spec fn known_seq(lines: Seq<BlockLine>) -> Seq<(Option<KnownDirective>, Seq<char>)>
    decreases lines.len(),
{
    if lines.len() == 0 {
        seq![]
    } else {
        let r = known_seq(lines.drop_last());
        if lines.last() is Known {
            r.push(view_line(lines.last()))
        } else {
            r
        }
    }
}

pub proof fn lemma_known_seq_push(lines: Seq<BlockLine>, x: BlockLine)
    ensures
        known_seq(lines.push(x)) == if x is Known {
            known_seq(lines).push(view_line(x))
        } else {
            known_seq(lines)
        },
{
    assert(lines.push(x).drop_last() == lines);
}

pub proof fn lemma_other_raws_push(lines: Seq<BlockLine>, x: BlockLine)
    ensures
        host::other_raws(lines.push(x)) == if x is Other {
            host::other_raws(lines).push(x.raw().0@)
        } else {
            host::other_raws(lines)
        },
{
    assert(lines.push(x).drop_last() == lines);
}

/// For each `Other` line, in order, how many `Known` lines precede it: which known fields it
/// sits between.
pub open spec fn other_slots(lines: Seq<BlockLine>) -> Seq<nat>
    decreases lines.len(),
{
    if lines.len() == 0 {
        seq![]
    } else {
        let r = other_slots(lines.drop_last());
        if lines.last() is Other {
            r.push(known_seq(lines.drop_last()).len())
        } else {
            r
        }
    }
}

pub proof fn lemma_other_slots_push(lines: Seq<BlockLine>, x: BlockLine)
    ensures
        other_slots(lines.push(x)) == if x is Other {
            other_slots(lines).push(known_seq(lines).len())
        } else {
            other_slots(lines)
        },
{
    assert(lines.push(x).drop_last() == lines);
}

pub proof fn lemma_other_slots_len(lines: Seq<BlockLine>)
    ensures
        other_slots(lines).len() == host::other_raws(lines).len(),
    decreases lines.len(),
{
    if lines.len() > 0 {
        lemma_other_slots_len(lines.drop_last());
    }
}

/// `other_slots` of a prefix is a prefix of `other_slots`.
pub proof fn lemma_other_slots_prefix(lines: Seq<BlockLine>, a: int)
    requires
        0 <= a <= lines.len(),
    ensures
        other_slots(lines.take(a)).len() <= other_slots(lines).len(),
        forall|j: int| 0 <= j < other_slots(lines.take(a)).len() ==> #[trigger] other_slots(lines.take(a))[j] == other_slots(lines)[j],
    decreases lines.len() - a,
{
    if a == lines.len() {
        assert(lines.take(a) == lines);
    } else {
        lemma_other_slots_prefix(lines, a + 1);
        let q = lines.take(a + 1);
        assert(q.drop_last() == lines.take(a));
        let o = other_slots(lines.take(a));
        let o1 = other_slots(q);
        assert(o1 == o || o1 == o.push(known_seq(lines.take(a)).len()));
        assert forall|j: int| 0 <= j < o.len() implies #[trigger] o[j] == other_slots(lines)[j] by {
            assert(o[j] == o1[j]);
        }
    }
}

/// The `Other` line at `q` sits after as many known lines as precede it.
pub proof fn lemma_other_slot_at(lines: Seq<BlockLine>, q: int)
    requires
        0 <= q < lines.len(),
        lines[q] is Other,
    ensures
        host::other_raws(lines.take(q)).len() < other_slots(lines).len(),
        other_slots(lines)[host::other_raws(lines.take(q)).len() as int] == known_seq(lines.take(q)).len(),
{
    lemma_other_slots_prefix(lines, q + 1);
    let t = lines.take(q + 1);
    assert(t.drop_last() == lines.take(q));
    assert(t.last() == lines[q]);
    lemma_other_slots_len(lines.take(q));
    let o = other_slots(lines.take(q));
    assert(other_slots(t) == o.push(known_seq(lines.take(q)).len()));
    assert(other_slots(t)[o.len() as int] == known_seq(lines.take(q)).len());
    assert(other_slots(lines)[o.len() as int] == other_slots(t)[o.len() as int]);
}

/// Each pair `(i, j)` of `p` puts new line `j` between the same known fields as old line `i`.
pub open spec fn keeps_slots(p: Seq<(usize, usize)>, olds: Seq<nat>, news: Seq<nat>) -> bool {
    forall|k: int| 0 <= k < p.len() ==> news[(#[trigger] p[k]).1 as int] == olds[p[k].0 as int]
}

/// `b` starts with `a`.
pub open spec fn grows_slots(a: Seq<nat>, b: Seq<nat>) -> bool {
    &&& a.len() <= b.len()
    &&& forall|j: int| 0 <= j < a.len() ==> #[trigger] b[j] == a[j]
}

pub proof fn lemma_split_term(l: Seq<char>)
    ensures
        l == text::strip_term(l) + terminator(l),
        is_term(terminator(l)),
        text::strip_term(l).len() <= l.len(),
{
    let c = text::strip_term(l);
    if l.len() > 0 && l.last() == '\n' {
        let r = l.drop_last();
        if r.len() > 0 && r.last() == '\r' {
            assert(l.skip(c.len() as int) == crlf());
        } else {
            assert(l.skip(c.len() as int) == lf());
        }
    } else {
        assert(l.skip(c.len() as int) == Seq::<char>::empty());
    }
    assert(l == c + l.skip(c.len() as int));
}

/// `idx` lists, in order, the positions of all the `Other` lines of `lines`.
#[verifier::opaque]
pub open spec fn lists_others(lines: Seq<BlockLine>, idx: Seq<usize>, upto: int) -> bool {
    &&& idx.len() == host::other_raws(lines.take(upto)).len()
    &&& forall|k: int| 0 <= k < idx.len() ==> #[trigger] idx[k] < upto && lines[idx[k] as int] is Other
    &&& forall|k1: int, k2: int| 0 <= k1 < k2 < idx.len() ==> #[trigger] idx[k1] < #[trigger] idx[k2]
    &&& forall|p: int|
        0 <= p < upto && #[trigger] lines[p] is Other ==> host::other_raws(lines.take(p)).len()
            < idx.len() && idx[host::other_raws(lines.take(p)).len() as int] == p
    &&& forall|k: int|
        0 <= k < idx.len() ==> #[trigger] host::other_raws(lines.take(upto))[k] == lines[idx[k] as int].raw().0@
}

proof fn lemma_lo_len(lines: Seq<BlockLine>, idx: Seq<usize>, upto: int)
    requires
        lists_others(lines, idx, upto),
    ensures
        idx.len() == host::other_raws(lines.take(upto)).len(),
{
    reveal(lists_others);
}

proof fn lemma_lo_at(lines: Seq<BlockLine>, idx: Seq<usize>, upto: int, p: int)
    requires
        lists_others(lines, idx, upto),
        0 <= p < upto,
        lines[p] is Other,
    ensures
        host::other_raws(lines.take(p)).len() < idx.len(),
        idx[host::other_raws(lines.take(p)).len() as int] == p,
{
    reveal(lists_others);
}

proof fn lemma_lo_entry(lines: Seq<BlockLine>, idx: Seq<usize>, upto: int, k: int)
    requires
        lists_others(lines, idx, upto),
        0 <= k < idx.len(),
    ensures
        idx[k] < upto,
        lines[idx[k] as int] is Other,
        host::other_raws(lines.take(upto))[k] == lines[idx[k] as int].raw().0@,
{
    reveal(lists_others);
}

proof fn lemma_lo_mono(lines: Seq<BlockLine>, idx: Seq<usize>, upto: int, k1: int, k2: int)
    requires
        lists_others(lines, idx, upto),
        0 <= k1 < k2 < idx.len(),
    ensures
        idx[k1] < idx[k2],
{
    reveal(lists_others);
}

/// Old advanced line `x` has exactly `x` advanced lines before it.
proof fn lemma_lo_count(lines: Seq<BlockLine>, idx: Seq<usize>, upto: int, x: int)
    requires
        lists_others(lines, idx, upto),
        upto <= lines.len(),
        0 <= x < idx.len(),
    ensures
        host::other_raws(lines.take(idx[x] as int)).len() == x,
        known_seq(lines.take(idx[x] + 1)).len() == other_slots(lines)[x],
        known_seq(lines.take(idx[x] as int)).len() == other_slots(lines)[x],
{
    lemma_lo_entry(lines, idx, upto, x);
    let p = idx[x] as int;
    lemma_lo_at(lines, idx, upto, p);
    let c = host::other_raws(lines.take(p)).len() as int;
    if c < x {
        lemma_lo_mono(lines, idx, upto, c, x);
    } else if c > x {
        lemma_lo_mono(lines, idx, upto, x, c);
    }
    assert(p < upto);
    lemma_other_slot_at(lines, p);
    assert(lines.take(p + 1) == lines.take(p).push(lines[p]));
    lemma_known_seq_push(lines.take(p), lines[p]);
}

proof fn lemma_lists_others_step(lines: Seq<BlockLine>, idx: Seq<usize>, q: usize)
    requires
        0 <= q < lines.len(),
        lists_others(lines, idx, q as int),
    ensures
        lines[q as int] is Other ==> lists_others(lines, idx.push(q), q + 1),
        lines[q as int] is Known ==> lists_others(lines, idx, q + 1),
{
    reveal(lists_others);
    host::lemma_other_raws_take_succ(lines, q as int);
    let r = host::other_raws(lines.take(q + 1));
    let r0 = host::other_raws(lines.take(q as int));
    if lines[q as int] is Other {
        let ni = idx.push(q);
        assert forall|p: int|
            0 <= p < q + 1 && #[trigger] lines[p] is Other implies host::other_raws(lines.take(p)).len()
                < ni.len() && ni[host::other_raws(lines.take(p)).len() as int] == p by {
            if p < q {
                assert(ni[host::other_raws(lines.take(p)).len() as int] == idx[host::other_raws(
                    lines.take(p),
                ).len() as int]);
            } else {
                assert(host::other_raws(lines.take(p)).len() == idx.len());
                assert(ni[idx.len() as int] == q);
            }
        }
        assert forall|k: int| 0 <= k < ni.len() implies #[trigger] r[k] == lines[ni[k] as int].raw().0@ by {
            if k < idx.len() {
                assert(r[k] == r0[k]);
            }
        }
        assert forall|k1: int, k2: int| 0 <= k1 < k2 < ni.len() implies #[trigger] ni[k1] < #[trigger] ni[k2] by {
            if k2 < idx.len() {
                assert(ni[k1] == idx[k1] && ni[k2] == idx[k2]);
            }
        }
        assert forall|k: int| 0 <= k < ni.len() implies #[trigger] ni[k] < q + 1 && lines[ni[k] as int] is Other by {
            if k < idx.len() {
                assert(ni[k] == idx[k]);
            }
        }
    } else {
        assert forall|p: int|
            0 <= p < q + 1 && #[trigger] lines[p] is Other implies host::other_raws(lines.take(p)).len()
                < idx.len() && idx[host::other_raws(lines.take(p)).len() as int] == p by {}
    }
}

/// Positions and contents of the `Other` lines.
fn other_lines(lines: &Vec<BlockLine>) -> (r: (Vec<usize>, Vec<String>))
    ensures
        lists_others(lines@, r.0@, lines@.len() as int),
        r.1@.map_values(|s: String| s@) == host::other_texts(lines@),
        r.0@.len() == r.1@.len(),
{
    let mut idx: Vec<usize> = Vec::new();
    let mut texts: Vec<String> = Vec::new();
    let mut q: usize = 0;
    assert(host::other_raws(lines@.take(0)) == Seq::<Seq<char>>::empty()) by {
        assert(lines@.take(0).len() == 0);
    }
    assert(lists_others(lines@, idx@, 0)) by {
        reveal(lists_others);
    }
    while q < lines.len()
        invariant
            q <= lines@.len(),
            lists_others(lines@, idx@, q as int),
            texts@.map_values(|s: String| s@) == host::other_texts(lines@.take(q as int)),
            idx@.len() == texts@.len(),
        decreases lines.len() - q,
    {
        proof {
            lemma_lists_others_step(lines@, idx@, q);
            host::lemma_other_raws_take_succ(lines@, q as int);
        }
        let ghost tv = texts@.map_values(|s: String| s@);
        let ghost r0 = host::other_raws(lines@.take(q as int));
        match &lines[q] {
            BlockLine::Other(line) => {
                idx.push(q);
                let c = parser::strip_terminator(line.0.as_str());
                texts.push(c);
                proof {
                    assert(texts@.map_values(|s: String| s@) =~= tv.push(c@));
                    let r1 = r0.push(line.0@);
                    assert(r1.map_values(|l: Seq<char>| text::strip_term(l)) =~= r0.map_values(
                        |l: Seq<char>| text::strip_term(l),
                    ).push(text::strip_term(line.0@)));
                }
            },
            BlockLine::Known { .. } => {},
        }
        q += 1;
    }
    assert(lines@.take(lines@.len() as int) == lines@);
    (idx, texts)
}

/// Append `new[from..to]` as `Other` lines ending in `ending`.
/// Each pair `(i, j)` of `p` keeps old line `i` as new line `j`, byte for byte.
pub open spec fn keeps(p: Seq<(usize, usize)>, olds: Seq<Seq<char>>, news: Seq<Seq<char>>) -> bool {
    forall|k: int| 0 <= k < p.len() ==> news[(#[trigger] p[k]).1 as int] == olds[p[k].0 as int]
}

/// The slot a gap's new lines take: after the gap's last old line, else before the kept line
/// that closes the gap, else after the last old advanced line, else at the end of the body.
pub open spec fn insertion_slot(old_slots: Seq<nat>, knowns: nat, start0: int, end0: int) -> nat {
    if end0 > start0 {
        old_slots[end0 - 1]
    } else if end0 < old_slots.len() {
        old_slots[end0]
    } else if old_slots.len() > 0 {
        old_slots[old_slots.len() - 1]
    } else {
        knowns
    }
}

pub open spec fn min_int(x: int, y: int) -> int {
    if x <= y {
        x
    } else {
        y
    }
}

/// New advanced line `j`, in the gap from `start` up to the kept pair `end`, is placed as the
/// editor places it: the gap's first new lines take the slots and terminators of its old lines,
/// in order; the rest are new lines ending in `ending`, at the gap's insertion slot.
pub open spec fn placed(
    j: int,
    start: (int, int),
    end: (int, int),
    olds: Seq<Seq<char>>,
    old_slots: Seq<nat>,
    knowns: nat,
    news: Seq<Seq<char>>,
    new_slots: Seq<nat>,
    texts: Seq<Seq<char>>,
    ending: Seq<char>,
) -> bool {
    if j - start.1 < min_int(end.0 - start.0, end.1 - start.1) {
        &&& news[j] == texts[j] + terminator(olds[start.0 + j - start.1])
        &&& new_slots[j] == old_slots[start.0 + j - start.1]
    } else {
        &&& news[j] == texts[j] + ending
        &&& new_slots[j] == insertion_slot(old_slots, knowns, start.0, end.0)
    }
}

/// Where gap `k` of matching `p` starts: just after pair `k - 1`.
pub open spec fn gap_start(p: Seq<(usize, usize)>, k: int) -> (int, int) {
    if k == 0 {
        (0, 0)
    } else {
        (p[k - 1].0 + 1, p[k - 1].1 + 1)
    }
}

/// Where gap `k` of matching `p` ends: at pair `k`, or at the ends of both sequences.
pub open spec fn gap_end(p: Seq<(usize, usize)>, k: int, m: int, n: int) -> (int, int) {
    if k < p.len() {
        (p[k].0 as int, p[k].1 as int)
    } else {
        (m, n)
    }
}

/// `b` starts with `a`.
pub open spec fn grows(a: Seq<Seq<char>>, b: Seq<Seq<char>>) -> bool {
    &&& a.len() <= b.len()
    &&& forall|j: int| 0 <= j < a.len() ==> #[trigger] b[j] == a[j]
}

fn emit_insertions(
    new: &Vec<String>,
    ending: &str,
    result: &mut Vec<BlockLine>,
    from: usize,
    to: usize,
)
    requires
        from <= to <= new@.len(),
        is_term(ending@),
        host::other_raws(old(result)@).len() == from,
        forall|j: int|
            0 <= j < host::other_raws(old(result)@).len() ==> has_content(
                #[trigger] host::other_raws(old(result)@)[j],
                new@[j]@,
            ),
    ensures
        host::other_raws(final(result)@).len() == to,
        forall|j: int|
            0 <= j < host::other_raws(final(result)@).len() ==> has_content(
                #[trigger] host::other_raws(final(result)@)[j],
                new@[j]@,
            ),
        known_seq(final(result)@) == known_seq(old(result)@),
        grows(host::other_raws(old(result)@), host::other_raws(final(result)@)),
        grows_slots(other_slots(old(result)@), other_slots(final(result)@)),
        forall|j: int|
            from <= j < to ==> #[trigger] host::other_raws(final(result)@)[j] == new@[j]@ + ending@
                && other_slots(final(result)@)[j] == known_seq(old(result)@).len(),
{
    let ghost r0 = result@;
    let mut k = from;
    while k < to
        invariant
            from <= k <= to <= new@.len(),
            is_term(ending@),
            host::other_raws(result@).len() == k,
            forall|j: int|
                0 <= j < host::other_raws(result@).len() ==> has_content(
                    #[trigger] host::other_raws(result@)[j],
                    new@[j]@,
                ),
            known_seq(result@) == known_seq(r0),
            grows(host::other_raws(r0), host::other_raws(result@)),
            grows_slots(other_slots(r0), other_slots(result@)),
            forall|j: int|
                from <= j < k ==> #[trigger] host::other_raws(result@)[j] == new@[j]@ + ending@
                    && other_slots(result@)[j] == known_seq(r0).len(),
        decreases to - k,
    {
        let text = concat_str(new[k].as_str(), ending);
        let ghost before = result@;
        result.push(BlockLine::Other(RawLine(text)));
        proof {
            lemma_other_raws_push(before, BlockLine::Other(RawLine(text)));
            lemma_known_seq_push(before, BlockLine::Other(RawLine(text)));
            lemma_other_slots_push(before, BlockLine::Other(RawLine(text)));
            lemma_other_slots_len(before);
            assert(text@.take(new@[k as int]@.len() as int) == new@[k as int]@);
            assert(text@.skip(new@[k as int]@.len() as int) == ending@);
            assert forall|j: int| from <= j < k + 1 implies #[trigger] host::other_raws(result@)[j] == new@[j]@ + ending@
                && other_slots(result@)[j] == known_seq(r0).len() by {
                if j < k {
                    assert(host::other_raws(result@)[j] == host::other_raws(before)[j]);
                    assert(other_slots(result@)[j] == other_slots(before)[j]);
                }
            }
        }
        k += 1;
    }
}

/// Emit block line `q` of a gap: a `Known` line as it is; an old advanced line overwritten by
/// its new line (`ko - start.0 < paired`), kept (the matched line), or dropped. Returns how many
/// old advanced lines precede `q + 1`.
fn emit_line(
    lines: &Vec<BlockLine>,
    old_idx: &Vec<usize>,
    old_text: &Vec<String>,
    new: &Vec<String>,
    result: &mut Vec<BlockLine>,
    q: usize,
    ko: usize,
    start: (usize, usize),
    end: (usize, usize),
    paired: usize,
) -> (ko2: usize)
    requires
        lists_others(lines@, old_idx@, lines@.len() as int),
        old_text@.map_values(|s: String| s@) == host::other_texts(lines@),
        old_idx@.len() == old_text@.len(),
        q < lines@.len(),
        host::other_raws(lines@.take(q as int)).len() == ko,
        start.0 <= ko <= old_idx@.len(),
        ko < old_idx@.len() ==> q <= old_idx@[ko as int],
        ko > 0 ==> old_idx@[ko - 1] < q,
        end.0 <= old_idx@.len(),
        end.0 < old_idx@.len() ==> q <= old_idx@[end.0 as int] && end.1 < new@.len()
            && old_text@[end.0 as int]@ == new@[end.1 as int]@,
        start.0 + paired <= end.0,
        start.1 + paired <= end.1 <= new@.len(),
        lines@[q as int] is Other && ko - start.0 < paired ==> host::other_raws(old(result)@).len()
            == start.1 + ko - start.0,
        lines@[q as int] is Other && ko == end.0 && ko - start.0 >= paired ==> host::other_raws(
            old(result)@,
        ).len() == end.1,
        forall|j: int|
            0 <= j < host::other_raws(old(result)@).len() ==> has_content(
                #[trigger] host::other_raws(old(result)@)[j],
                new@[j]@,
            ),
    ensures
        ko2 == ko + if lines@[q as int] is Other { 1int } else { 0 },
        host::other_raws(lines@.take(q + 1)).len() == ko2,
        ko2 < old_idx@.len() ==> q + 1 <= old_idx@[ko2 as int],
        ko2 > 0 ==> old_idx@[ko2 - 1] < q + 1,
        lines@[q as int] is Other ==> end.0 < old_idx@.len() ==> ko <= end.0,
        lines@[q as int] is Other ==> ko < old_idx@.len(),
        known_seq(old(result)@) == known_seq(lines@.take(q as int)) ==> known_seq(final(result)@)
            == known_seq(lines@.take(q + 1)),
        host::other_raws(final(result)@).len() == host::other_raws(old(result)@).len() + if lines@[q as int] is Other && (ko - start.0 < paired || ko == end.0) {
            1int
        } else {
            0
        },
        grows(host::other_raws(old(result)@), host::other_raws(final(result)@)),
        lines@[q as int] is Other && ko == end.0 && !(ko - start.0 < paired) ==> host::other_raws(
            final(result)@,
        )[host::other_raws(old(result)@).len() as int] == host::other_raws(lines@)[ko as int],
        grows_slots(other_slots(old(result)@), other_slots(final(result)@)),
        lines@[q as int] is Other && (ko - start.0 < paired || ko == end.0) && known_seq(old(result)@)
            == known_seq(lines@.take(q as int)) ==> other_slots(final(result)@)[host::other_raws(
            old(result)@,
        ).len() as int] == other_slots(lines@)[ko as int],
        lines@[q as int] is Other && ko - start.0 < paired ==> host::other_raws(final(result)@)[host::other_raws(
            old(result)@,
        ).len() as int] == new@[start.1 + ko - start.0]@ + terminator(host::other_raws(lines@)[ko as int]),
        forall|j: int|
            0 <= j < host::other_raws(final(result)@).len() ==> has_content(
                #[trigger] host::other_raws(final(result)@)[j],
                new@[j]@,
            ),
{
    let ghost lines0 = lines@;
    let m = old_idx.len();
    let total = lines.len();
    proof {
        host::lemma_other_raws_take_succ(lines0, q as int);
        assert(lines0.take(q + 1).drop_last() == lines0.take(q as int));
    }
    let ghost before = result@;
    match &lines[q] {
        BlockLine::Known { directive, line } => {
            result.push(BlockLine::Known { directive: *directive, line: line.dup() });
            proof {
                lemma_other_raws_push(before, result@.last());
                lemma_known_seq_push(before, result@.last());
                lemma_other_slots_push(before, result@.last());
                if ko < m {
                    lemma_lo_entry(lines0, old_idx@, total as int, ko as int);
                }
            }
            ko
        },
        BlockLine::Other(line) => {
            proof {
                lemma_lo_at(lines0, old_idx@, total as int, q as int);
                assert(old_idx@[ko as int] == q);
                if ko + 1 < m {
                    lemma_lo_mono(lines0, old_idx@, total as int, ko as int, ko + 1);
                }
                if end.0 < m && ko > end.0 {
                    lemma_lo_mono(lines0, old_idx@, total as int, end.0 as int, ko as int);
                }
                lemma_split_term(line.0@);
                lemma_lo_entry(lines0, old_idx@, total as int, ko as int);
                lemma_lo_len(lines0, old_idx@, total as int);
                assert(lines0.take(total as int) == lines0);
                assert(host::other_raws(lines0.take(total as int))[ko as int] == line.0@);
                assert(old_text@.map_values(|s: String| s@)[ko as int] == text::strip_term(line.0@));
            }
            if ko - start.0 < paired {
                let (_, term) = split_keyword_and_terminator(line.0.as_str());
                let text = concat_str(new[start.1 + (ko - start.0)].as_str(), term.as_str());
                result.push(BlockLine::Other(RawLine(text)));
                proof {
                    lemma_other_raws_push(before, result@.last());
                    lemma_known_seq_push(before, result@.last());
                    lemma_other_slots_push(before, result@.last());
                    lemma_other_slots_len(before);
                    lemma_other_slot_at(lines0, q as int);
                    let c = new@[start.1 + ko - start.0]@;
                    assert(text@.take(c.len() as int) == c);
                    assert(text@.skip(c.len() as int) == terminator(line.0@));
                }
            } else if ko == end.0 {
                result.push(BlockLine::Other(line.dup()));
                proof {
                    lemma_other_raws_push(before, result@.last());
                    lemma_known_seq_push(before, result@.last());
                    lemma_other_slots_push(before, result@.last());
                    lemma_other_slots_len(before);
                    lemma_other_slot_at(lines0, q as int);
                    let c = new@[end.1 as int]@;
                    assert(line.0@.take(c.len() as int) == c);
                    assert(line.0@.skip(c.len() as int) == terminator(line.0@));
                }
            }
            ko + 1
        },
    }
}

/// Emit the block lines of one gap: from `q0` (just past the previous matched line) through
/// the line matched by `end` (or to the end of the block for the last gap). The old lines
/// `old[start.0..end.0]` take the new lines `new[start.1..end.1]` in order while both last;
/// the new lines left over go right after the last old line of the gap, or right before the
/// matched line when the gap has no old line.
/// Placements already made survive appending more lines.
proof fn lemma_placed_keep(
    before: Seq<BlockLine>,
    after: Seq<BlockLine>,
    start: (int, int),
    end: (int, int),
    olds: Seq<Seq<char>>,
    old_slots: Seq<nat>,
    knowns: nat,
    texts: Seq<Seq<char>>,
    ending: Seq<char>,
)
    requires
        0 <= start.1,
        grows(host::other_raws(before), host::other_raws(after)),
        grows_slots(other_slots(before), other_slots(after)),
        forall|j: int|
            start.1 <= j < end.1 && j < host::other_raws(before).len() ==> #[trigger] placed(
                j,
                start,
                end,
                olds,
                old_slots,
                knowns,
                host::other_raws(before),
                other_slots(before),
                texts,
                ending,
            ),
    ensures
        forall|j: int|
            start.1 <= j < end.1 && j < host::other_raws(before).len() ==> #[trigger] placed(
                j,
                start,
                end,
                olds,
                old_slots,
                knowns,
                host::other_raws(after),
                other_slots(after),
                texts,
                ending,
            ),
{
    lemma_other_slots_len(before);
    assert forall|j: int| start.1 <= j < end.1 && j < host::other_raws(before).len() implies #[trigger] placed(
        j,
        start,
        end,
        olds,
        old_slots,
        knowns,
        host::other_raws(after),
        other_slots(after),
        texts,
        ending,
    ) by {
        let ob = host::other_raws(before);
        let oa = host::other_raws(after);
        let sb = other_slots(before);
        let sa = other_slots(after);
        assert(placed(j, start, end, olds, old_slots, knowns, ob, sb, texts, ending));
        assert(oa[j] == ob[j]);
        assert(sa[j] == sb[j]);
    }
}

/// The known lines before a gap's insertion point are those before its insertion slot.
proof fn lemma_boundary_slot(lines: Seq<BlockLine>, idx: Seq<usize>, s0: int, e0: int, boundary: int)
    requires
        lists_others(lines, idx, lines.len() as int),
        0 <= s0 <= e0 <= idx.len(),
        boundary == if e0 > s0 {
            idx[e0 - 1] + 1
        } else if e0 < idx.len() {
            idx[e0] as int
        } else if idx.len() > 0 {
            idx[idx.len() - 1] + 1
        } else {
            lines.len() as int
        },
    ensures
        known_seq(lines.take(boundary)).len() == insertion_slot(other_slots(lines), known_seq(lines).len(), s0, e0),
{
    let total = lines.len() as int;
    lemma_lo_len(lines, idx, total);
    assert(lines.take(total) == lines);
    lemma_other_slots_len(lines);
    if e0 > s0 {
        lemma_lo_count(lines, idx, total, e0 - 1);
    } else if e0 < idx.len() {
        lemma_lo_count(lines, idx, total, e0);
    } else if idx.len() > 0 {
        lemma_lo_count(lines, idx, total, idx.len() - 1);
    }
}

#[verifier::loop_isolation(false)]
#[verifier::rlimit(50)]
fn emit_gap(
    lines: &Vec<BlockLine>,
    old_idx: &Vec<usize>,
    old_text: &Vec<String>,
    new: &Vec<String>,
    ending: &str,
    result: &mut Vec<BlockLine>,
    q0: usize,
    start: (usize, usize),
    end: (usize, usize),
) -> (q: usize)
    requires
        lists_others(lines@, old_idx@, lines@.len() as int),
        old_text@.map_values(|s: String| s@) == host::other_texts(lines@),
        old_idx@.len() == old_text@.len(),
        is_term(ending@),
        start.0 <= end.0 <= old_idx@.len(),
        start.1 <= end.1 <= new@.len(),
        end.0 == old_idx@.len() ==> end.1 == new@.len(),
        end.0 < old_idx@.len() ==> end.1 < new@.len() && old_text@[end.0 as int]@ == new@[end.1 as int]@,
        q0 == if start.0 == 0 {
            0
        } else {
            old_idx@[start.0 - 1] + 1
        },
        host::other_raws(lines@.take(q0 as int)).len() == start.0,
        known_seq(old(result)@) == known_seq(lines@.take(q0 as int)),
        host::other_raws(old(result)@).len() == start.1,
        forall|j: int|
            0 <= j < host::other_raws(old(result)@).len() ==> has_content(
                #[trigger] host::other_raws(old(result)@)[j],
                new@[j]@,
            ),
    ensures
        q <= lines@.len(),
        end.0 < old_idx@.len() ==> q == old_idx@[end.0 as int] + 1 && host::other_raws(final(result)@).len() == end.1 + 1,
        end.0 == old_idx@.len() ==> q == lines@.len() && host::other_raws(final(result)@).len() == end.1,
        host::other_raws(lines@.take(q as int)).len() == if end.0 < old_idx@.len() { end.0 + 1 } else { end.0 as int },
        known_seq(final(result)@) == known_seq(lines@.take(q as int)),
        forall|j: int|
            0 <= j < host::other_raws(final(result)@).len() ==> has_content(
                #[trigger] host::other_raws(final(result)@)[j],
                new@[j]@,
            ),
        grows(host::other_raws(old(result)@), host::other_raws(final(result)@)),
        end.0 < old_idx@.len() ==> host::other_raws(final(result)@)[end.1 as int] == host::other_raws(
            lines@,
        )[end.0 as int],
        grows_slots(other_slots(old(result)@), other_slots(final(result)@)),
        end.0 < old_idx@.len() ==> other_slots(final(result)@)[end.1 as int] == other_slots(lines@)[end.0 as int],
        forall|j: int|
            start.1 <= j < end.1 ==> #[trigger] placed(
                j,
                (start.0 as int, start.1 as int),
                (end.0 as int, end.1 as int),
                host::other_raws(lines@),
                other_slots(lines@),
                known_seq(lines@).len(),
                host::other_raws(final(result)@),
                other_slots(final(result)@),
                texts_of(new@),
                ending@,
            ),
{
    let ghost lines0 = lines@;
    let ghost r_init = result@;
    let m = old_idx.len();
    let total = lines.len();
    let (end_old, end_new) = end;
    proof {
        if end_old > 0 {
            lemma_lo_entry(lines0, old_idx@, total as int, end_old - 1);
        }
        if end_old < m {
            lemma_lo_entry(lines0, old_idx@, total as int, end_old as int);
        }
        if m > 0 {
            lemma_lo_entry(lines0, old_idx@, total as int, m - 1);
        }
    }
    let paired = if end_old - start.0 <= end_new - start.1 {
        end_old - start.0
    } else {
        end_new - start.1
    };
    let boundary = if end_old > start.0 {
        old_idx[end_old - 1] + 1
    } else if end_old < m {
        old_idx[end_old]
    } else if m > 0 {
        old_idx[m - 1] + 1
    } else {
        total
    };
    let stop = if end_old < m {
        old_idx[end_old] + 1
    } else {
        total
    };
    let ghost s0 = start.0;
    let ghost s1 = start.1;
    proof {
        if start.0 > 0 && end_old > start.0 {
            if start.0 - 1 < end_old - 1 {
                lemma_lo_mono(lines0, old_idx@, total as int, start.0 - 1, end_old - 1);
            }
        }
        if start.0 > 0 && end_old == start.0 && end_old < m {
            lemma_lo_mono(lines0, old_idx@, total as int, start.0 - 1, end_old as int);
        }
        if end_old > start.0 && end_old < m {
            lemma_lo_mono(lines0, old_idx@, total as int, end_old - 1, end_old as int);
        }
        if start.0 > 0 && start.0 < m {
            lemma_lo_mono(lines0, old_idx@, total as int, start.0 - 1, start.0 as int);
        }
        if start.0 > 0 && end_old < m && start.0 - 1 < end_old {
            lemma_lo_mono(lines0, old_idx@, total as int, start.0 - 1, end_old as int);
        }
        if start.0 > 0 {
            lemma_lo_entry(lines0, old_idx@, total as int, start.0 - 1);
        }
        lemma_lo_len(lines0, old_idx@, total as int);
        if m > 0 {
            assert(old_idx@[m - 1] < total);
        }
    }
    let mut q = q0;
    let mut ko = start.0;
    while q < stop
        invariant
            q0 <= q <= stop <= total,
            boundary <= stop,
            s0 <= ko,
            ko <= m,
            ko < m ==> q <= old_idx@[ko as int],
            ko > 0 ==> old_idx@[ko - 1] < q,
            host::other_raws(lines0.take(q as int)).len() == ko,
            known_seq(result@) == known_seq(lines0.take(q as int)),
            q <= boundary ==> host::other_raws(result@).len() == s1 + if ko - s0 <= paired {
                ko - s0
            } else {
                paired as int
            },
            q > boundary ==> ko >= end_old && host::other_raws(result@).len() == end_new + ko
                - end_old,
            forall|j: int|
                0 <= j < host::other_raws(result@).len() ==> has_content(
                    #[trigger] host::other_raws(result@)[j],
                    new@[j]@,
                ),
            grows(host::other_raws(r_init), host::other_raws(result@)),
            end_old < m && ko > end_old ==> end_new < host::other_raws(result@).len()
                && host::other_raws(result@)[end_new as int] == host::other_raws(lines0)[end_old as int],
            grows_slots(other_slots(r_init), other_slots(result@)),
            end_old < m && ko > end_old ==> end_new < other_slots(result@).len()
                && other_slots(result@)[end_new as int] == other_slots(lines0)[end_old as int],
            forall|j: int|
                s1 <= j < end_new && j < host::other_raws(result@).len() ==> #[trigger] placed(
                    j,
                    (s0 as int, s1 as int),
                    (end_old as int, end_new as int),
                    host::other_raws(lines0),
                    other_slots(lines0),
                    known_seq(lines0).len(),
                    host::other_raws(result@),
                    other_slots(result@),
                    texts_of(new@),
                    ending@,
                ),
        decreases stop - q,
    {
        if q == boundary {
            proof {
                if ko > 0 && ko - 1 > end_old && end_old < m {
                    lemma_lo_mono(lines0, old_idx@, total as int, end_old as int, ko - 1);
                }
                if ko < m && ko + 1 < end_old {
                    lemma_lo_mono(lines0, old_idx@, total as int, ko as int, end_old - 1);
                }
            }
            let ghost before_ins = result@;
            emit_insertions(new, ending, result, start.1 + paired, end_new);
            proof {
                assert(host::other_raws(before_ins).len() == s1 + paired);
                assert(known_seq(before_ins) == known_seq(lines0.take(boundary as int)));
                lemma_boundary_slot(lines0, old_idx@, s0 as int, end_old as int, boundary as int);
                lemma_other_slots_len(result@);
                lemma_other_slots_len(before_ins);
                lemma_placed_keep(before_ins, result@, (s0 as int, s1 as int), (end_old as int, end_new as int),
                    host::other_raws(lines0), other_slots(lines0), known_seq(lines0).len(), texts_of(new@), ending@);
                assert(paired as int == min_int(end_old - s0, end_new - s1));
                assert forall|j: int|
                    host::other_raws(before_ins).len() <= j < end_new && j < host::other_raws(result@).len() implies #[trigger] placed(
                        j,
                        (s0 as int, s1 as int),
                        (end_old as int, end_new as int),
                        host::other_raws(lines0),
                        other_slots(lines0),
                        known_seq(lines0).len(),
                        host::other_raws(result@),
                        other_slots(result@),
                        texts_of(new@),
                        ending@,
                    ) by {
                    assert(texts_of(new@)[j] == new@[j]@);
                    assert(j - s1 >= paired);
                    assert(host::other_raws(result@)[j] == new@[j]@ + ending@);
                    assert(other_slots(result@)[j] == known_seq(before_ins).len());
                    assert(known_seq(before_ins).len() == insertion_slot(other_slots(lines0), known_seq(lines0).len(), s0 as int, end_old as int));
                }
            }
        }
        proof {
            if lines0[q as int] is Other {
                lemma_lo_at(lines0, old_idx@, total as int, q as int);
            }
        }
        let ghost before_line = result@;
        let ghost ko_before = ko;
        ko = emit_line(lines, old_idx, old_text, new, result, q, ko, start, end, paired);
        proof {
            lemma_other_slots_len(result@);
            lemma_other_slots_len(before_line);
            lemma_placed_keep(before_line, result@, (s0 as int, s1 as int), (end_old as int, end_new as int),
                host::other_raws(lines0), other_slots(lines0), known_seq(lines0).len(), texts_of(new@), ending@);
            assert(paired as int == min_int(end_old - s0, end_new - s1));
            if host::other_raws(before_line).len() < end_new && host::other_raws(before_line).len() < host::other_raws(result@).len() {
                let j = host::other_raws(before_line).len() as int;
                assert(ko_before - s0 < paired);
                assert(texts_of(new@)[j] == new@[j]@);
                assert(placed(
                    j,
                    (s0 as int, s1 as int),
                    (end_old as int, end_new as int),
                    host::other_raws(lines0),
                    other_slots(lines0),
                    known_seq(lines0).len(),
                    host::other_raws(result@),
                    other_slots(result@),
                    texts_of(new@),
                    ending@,
                ));
            }
        }
        q += 1;
    }
    if boundary == total {
        let ghost before_ins = result@;
        proof {
            lemma_lo_len(lines0, old_idx@, total as int);
            assert(q == total);
            assert(ko == m) by {
                assert(lines0.take(total as int) == lines0);
            }
            assert(host::other_raws(before_ins).len() == s1 + paired);
            assert(known_seq(before_ins) == known_seq(lines0.take(boundary as int)));
        }
        emit_insertions(new, ending, result, start.1 + paired, end_new);
        proof {
            lemma_boundary_slot(lines0, old_idx@, s0 as int, end_old as int, boundary as int);
            lemma_other_slots_len(result@);
            lemma_other_slots_len(before_ins);
            lemma_placed_keep(before_ins, result@, (s0 as int, s1 as int), (end_old as int, end_new as int),
                host::other_raws(lines0), other_slots(lines0), known_seq(lines0).len(), texts_of(new@), ending@);
            assert(paired as int == min_int(end_old - s0, end_new - s1));
            assert forall|j: int|
                host::other_raws(before_ins).len() <= j < end_new && j < host::other_raws(result@).len() implies #[trigger] placed(
                    j,
                    (s0 as int, s1 as int),
                    (end_old as int, end_new as int),
                    host::other_raws(lines0),
                    other_slots(lines0),
                    known_seq(lines0).len(),
                    host::other_raws(result@),
                    other_slots(result@),
                    texts_of(new@),
                    ending@,
                ) by {
                assert(texts_of(new@)[j] == new@[j]@);
                assert(j - s1 >= paired);
                assert(host::other_raws(result@)[j] == new@[j]@ + ending@);
                assert(other_slots(result@)[j] == known_seq(before_ins).len());
                assert(known_seq(before_ins).len() == insertion_slot(other_slots(lines0), known_seq(lines0).len(), s0 as int, end_old as int));
            }
        }
    }
    proof {
        assert(lines0.take(total as int) == lines0);
        if end_old < m && ko < m && end_old < ko {
            lemma_lo_mono(lines0, old_idx@, total as int, end_old as int, ko as int);
        }
        if ko > 0 && end_old < m && ko - 1 > end_old {
            lemma_lo_mono(lines0, old_idx@, total as int, end_old as int, ko - 1);
        }
        lemma_lo_len(lines0, old_idx@, total as int);
    }
    q
}

/// Two line lists that differ at most at `k` and join to the same text agree at `k` too.
proof fn lemma_join_one_change(x: Seq<Seq<char>>, y: Seq<Seq<char>>, k: int)
    requires
        x.len() == y.len(),
        0 <= k < x.len(),
        forall|i: int| 0 <= i < x.len() && i != k ==> x[i] == y[i],
        host::join_lines(x) == host::join_lines(y),
    ensures
        x[k] == y[k],
    decreases x.len(),
{
    if x.len() > 1 {
        let jx = host::join_lines(x.drop_last());
        let jy = host::join_lines(y.drop_last());
        assert(host::join_lines(x) == jx + seq!['\n'] + x.last());
        assert(host::join_lines(y) == jy + seq!['\n'] + y.last());
        if k < x.len() - 1 {
            assert(x.last() == y.last());
            let t = seq!['\n'] + x.last();
            assert(jx + seq!['\n'] + x.last() == jx + t);
            assert(jy + seq!['\n'] + y.last() == jy + t);
            assert(jx == (jx + t).take(jx.len() as int));
            assert(jy == (jy + t).take(jy.len() as int));
            assert forall|i: int| 0 <= i < x.len() - 1 && i != k implies x.drop_last()[i] == y.drop_last()[i] by {
                assert(x[i] == y[i]);
            }
            lemma_join_one_change(x.drop_last(), y.drop_last(), k);
        } else {
            assert(x.drop_last() == y.drop_last()) by {
                assert forall|i: int| 0 <= i < x.len() - 1 implies x.drop_last()[i] == y.drop_last()[i] by {
                    assert(x[i] == y[i]);
                }
            }
            let h = jx + seq!['\n'];
            assert(jx + seq!['\n'] + x.last() == h + x.last());
            assert(jy + seq!['\n'] + y.last() == h + y.last());
            assert(x.last() == (h + x.last()).skip(h.len() as int));
            assert(y.last() == (h + y.last()).skip(h.len() as int));
        }
    }
}

/// When the new advanced lines are the old ones with line `k` changed, the anchors are every
/// other line, each kept in place.
pub proof fn lemma_hirschberg_one_change(c: Seq<Seq<char>>, k: int, s: Seq<char>)
    requires
        0 <= k < c.len(),
        s != c[k],
    ensures
        hirschberg(c, c.update(k, s), (0, 0)) == diagonal((0, 0), k) + diagonal((k + 1, k + 1), c.len() - k - 1),
{
    let e = c.update(k, s);
    let m = c.len() as int;
    if m == 1 {
        lemma_first_at_is(e, c[0], 1int);
        lemma_hirschberg_small(c, e, (0, 0));
        assert(diagonal((0, 0), k) + diagonal((k + 1, k + 1), c.len() - k - 1) == Seq::<(usize, usize)>::empty());
    } else {
        lemma_prefix_len_is(c, e, k);
        let sa = c.skip(k);
        let sb = e.skip(k);
        assert forall|i: int| sa.len() - (m - k - 1) <= i < sa.len() implies #[trigger] sa[i] == sb[i - sa.len() + sb.len()] by {
            assert(c[i + k] == e[i + k]);
        }
        assert(sa[sa.len() - 1 - (m - k - 1)] == c[k]);
        assert(sb[sb.len() - 1 - (m - k - 1)] == s);
        lemma_suffix_len_is(sa, sb, m - k - 1);
        lemma_hirschberg_trim(c, e, (0, 0), k, m - k - 1);
        let ma = c.subrange(k, k + 1);
        let mb = e.subrange(k, k + 1);
        assert(ma.len() == 1 && mb.len() == 1);
        assert(mb[0] == s && ma[0] == c[k]);
        lemma_first_at_is(mb, ma[0], 1int);
        lemma_hirschberg_small(ma, mb, (k, k));
        assert(hirschberg(ma, mb, (0 + k, 0 + k)) == Seq::<(usize, usize)>::empty());
        assert(c.len() - (m - k - 1) == k + 1);
    }
}

/// `slots_of` has one entry per other entry, none past the number of known entries, and none
/// reaching it when the view ends in a known entry.
pub proof fn lemma_slots_bound(vs: Seq<(Option<KnownDirective>, Seq<char>)>)
    ensures
        slots_of(vs).len() == other_views(vs).len(),
        forall|j: int| 0 <= j < slots_of(vs).len() ==> #[trigger] slots_of(vs)[j] <= known_views(vs).len(),
        vs.len() > 0 && vs.last().0 is Some ==> forall|j: int|
            0 <= j < slots_of(vs).len() ==> #[trigger] slots_of(vs)[j] < known_views(vs).len(),
    decreases vs.len(),
{
    if vs.len() > 0 {
        lemma_slots_bound(vs.drop_last());
    }
}

/// A body view is fixed by its known entries, its other entries and their slots.
pub proof fn lemma_views_determined(v1: Seq<(Option<KnownDirective>, Seq<char>)>, v2: Seq<(Option<KnownDirective>, Seq<char>)>)
    requires
        known_views(v1) == known_views(v2),
        other_views(v1) == other_views(v2),
        slots_of(v1) == slots_of(v2),
    ensures
        v1 == v2,
    decreases v1.len() + v2.len(),
{
    lemma_slots_bound(v1);
    lemma_slots_bound(v2);
    if v1.len() == 0 || v2.len() == 0 {
        if v1.len() > 0 {
            assert(known_views(v1).len() > 0 || other_views(v1).len() > 0);
        }
        if v2.len() > 0 {
            assert(known_views(v2).len() > 0 || other_views(v2).len() > 0);
        }
    } else {
        let d1 = v1.drop_last();
        let d2 = v2.drop_last();
        lemma_slots_bound(d1);
        lemma_slots_bound(d2);
        if v1.last().0 is None {
            let n = slots_of(v1).len() - 1;
            assert(slots_of(v1)[n] == known_views(d1).len());
            assert(known_views(v1) == known_views(d1));
            if v2.last().0 is Some {
                assert(slots_of(v2)[n] < known_views(v2).len());
            }
            assert(v2.last().0 is None);
            assert(other_views(d1) == other_views(v1).drop_last());
            assert(other_views(d2) == other_views(v2).drop_last());
            assert(slots_of(d1) == slots_of(v1).drop_last());
            assert(slots_of(d2) == slots_of(v2).drop_last());
            lemma_views_determined(d1, d2);
            assert(v1.last().1 == other_views(v1).last());
            assert(v2.last().1 == other_views(v2).last());
            assert(v1 == d1.push(v1.last()));
            assert(v2 == d2.push(v2.last()));
        } else {
            if v2.last().0 is None {
                let n = slots_of(v2).len() - 1;
                assert(slots_of(v2)[n] == known_views(d2).len());
                assert(slots_of(v1)[n] < known_views(v1).len());
            }
            assert(v2.last().0 is Some);
            assert(known_views(d1) == known_views(v1).drop_last());
            assert(known_views(d2) == known_views(v2).drop_last());
            lemma_views_determined(d1, d2);
            assert(v1.last() == known_views(v1).last());
            assert(v2.last() == known_views(v2).last());
            assert(v1 == d1.push(v1.last()));
            assert(v2 == d2.push(v2.last()));
        }
    }
}

/// Replacing the other entry at `i` by another other entry changes the other texts at its
/// place only.
pub proof fn lemma_update_other_view(vs: Seq<(Option<KnownDirective>, Seq<char>)>, i: int, x: (Option<KnownDirective>, Seq<char>))
    requires
        0 <= i < vs.len(),
        vs[i].0 is None,
        x.0 is None,
    ensures
        known_views(vs.update(i, x)) == known_views(vs),
        slots_of(vs.update(i, x)) == slots_of(vs),
        other_views(vs.take(i)).len() < other_views(vs).len(),
        other_views(vs)[other_views(vs.take(i)).len() as int] == vs[i].1,
        other_views(vs.update(i, x)) == other_views(vs).update(other_views(vs.take(i)).len() as int, x.1),
    decreases vs.len(),
{
    let u = vs.update(i, x);
    if i == vs.len() - 1 {
        assert(u.drop_last() == vs.drop_last());
        assert(vs.take(i) == vs.drop_last());
    } else {
        let d = vs.drop_last();
        lemma_update_other_view(d, i, x);
        assert(u.drop_last() == d.update(i, x));
        assert(d.take(i) == vs.take(i));
        assert(u.last() == vs.last());
    }
}

/// The advanced text `extra` is the block's, with the advanced line at `i` changed to `s`.
pub open spec fn edits_one_line(lines: Seq<BlockLine>, extra: Seq<char>, i: int, s: Seq<char>) -> bool {
    &&& 0 <= i < lines.len()
    &&& lines[i] is Other
    &&& s != text::strip_term(lines[i].raw().0@)
    &&& host::extra_lines(extra) == host::other_texts(lines).update(host::other_raws(lines.take(i)).len() as int, s)
}

/// The advanced text `extra` is that of body view `vs`, with the other entry at `i` changed to
/// the line `s`.
pub open spec fn edits_one_view(vs: Seq<(Option<KnownDirective>, Seq<char>)>, extra: Seq<char>, i: int, s: Seq<char>) -> bool {
    &&& 0 <= i < vs.len()
    &&& vs[i].0 is None
    &&& s != text::strip_term(vs[i].1)
    &&& host::extra_lines(extra) == other_views(vs).map_values(|l: Seq<char>| text::strip_term(l)).update(
        other_views(vs.take(i)).len() as int,
        s,
    )
}

proof fn lemma_other_views_len(vs: Seq<(Option<KnownDirective>, Seq<char>)>)
    ensures
        other_views(vs).len() <= vs.len(),
    decreases vs.len(),
{
    if vs.len() > 0 {
        lemma_other_views_len(vs.drop_last());
    }
}

/// Text that already joins to a view's advanced lines cannot change one of them.
proof fn lemma_joined_view_edits_nothing(vs: Seq<(Option<KnownDirective>, Seq<char>)>, extra: Seq<char>, i: int, s: Seq<char>)
    requires
        0 <= i < vs.len(),
        vs[i].0 is None,
        host::extra_lines(extra) == other_views(vs).map_values(|l: Seq<char>| text::strip_term(l)).update(
            other_views(vs.take(i)).len() as int,
            s,
        ),
        host::join_lines(other_views(vs).map_values(|l: Seq<char>| text::strip_term(l))) == extra,
    ensures
        s == text::strip_term(vs[i].1),
{
    let k = other_views(vs.take(i)).len() as int;
    lemma_update_other_view(vs, i, vs[i]);
    let c = other_views(vs).map_values(|l: Seq<char>| text::strip_term(l));
    let e = host::extra_lines(extra);
    assert(c[k] == text::strip_term(vs[i].1));
    assert(e.len() == c.len());
    assert(extra.len() > 0);
    host::lemma_split_nl(extra);
    lemma_join_one_change(c, e, k);
}

/// When `extra` changes exactly one advanced line of the view `before`, the view `after` that
/// the matching `hirschberg` picks and `placed` describe is `before` with that one entry's text
/// replaced, its slot and terminator kept.
proof fn lemma_views_one_change(
    before: Seq<(Option<KnownDirective>, Seq<char>)>,
    after: Seq<(Option<KnownDirective>, Seq<char>)>,
    extra: Seq<char>,
    ending: Seq<char>,
    p: Seq<(usize, usize)>,
    i: int,
    s: Seq<char>,
)
    requires
        edits_one_view(before, extra, i, s),
        before.len() <= usize::MAX,
        known_views(after) == known_views(before),
        other_views(after).len() == host::extra_lines(extra).len(),
        p == hirschberg(
            other_views(before).map_values(|l: Seq<char>| text::strip_term(l)),
            host::extra_lines(extra),
            (0, 0),
        ),
        keeps(p, other_views(before), other_views(after)),
        keeps_slots(p, slots_of(before), slots_of(after)),
        forall|k: int, j: int|
            0 <= k <= p.len() && gap_start(p, k).1 <= j < gap_end(
                p,
                k,
                other_views(before).len() as int,
                host::extra_lines(extra).len() as int,
            ).1 ==> #[trigger] placed(
                j,
                gap_start(p, k),
                gap_end(p, k, other_views(before).len() as int, host::extra_lines(extra).len() as int),
                other_views(before),
                slots_of(before),
                known_views(before).len(),
                other_views(after),
                slots_of(after),
                host::extra_lines(extra),
                ending,
            ),
    ensures
        after == before.update(i, (None, s + terminator(before[i].1))),
{
    let olds = other_views(before);
    let news = other_views(after);
    let c = olds.map_values(|l: Seq<char>| text::strip_term(l));
    let m = c.len() as int;
    let k = other_views(before.take(i)).len() as int;
    let x = (None::<KnownDirective>, s + terminator(before[i].1));
    lemma_update_other_view(before, i, x);
    assert(c[k] == text::strip_term(olds[k]));
    lemma_hirschberg_one_change(c, k, s);
    let e = host::extra_lines(extra);
    assert(e == c.update(k, s));
    lemma_slots_bound(before);
    lemma_slots_bound(after);
    lemma_other_views_len(before);
    let d1 = diagonal((0, 0), k);
    let d2 = diagonal((k + 1, k + 1), m - k - 1);
    assert(p == d1 + d2);
    assert(p.len() == m - 1);
    assert forall|t: int| 0 <= t < m - 1 implies #[trigger] p[t] == (
        (if t < k { t } else { t + 1 }) as usize,
        (if t < k { t } else { t + 1 }) as usize,
    ) by {
        if t < k {
            assert(p[t] == d1[t]);
        } else {
            assert(p[t] == d2[t - k]);
        }
    }
    // Every line but `k` is a kept pair.
    assert forall|j: int| 0 <= j < m && j != k implies news[j] == olds[j] && slots_of(after)[j] == slots_of(before)[j] by {
        let t = if j < k { j } else { j - 1 };
        assert(p[t].0 as int == j && p[t].1 as int == j);
    }
    // Line `k` is alone in its gap, and takes the old line's slot and terminator.
    if k > 0 {
        assert(p[k - 1].0 as int == k - 1 && p[k - 1].1 as int == k - 1);
    }
    assert(gap_start(p, k) == (k, k));
    if k < m - 1 {
        assert(p[k].0 as int == k + 1 && p[k].1 as int == k + 1);
    }
    assert(gap_end(p, k, m, m) == (k + 1, k + 1));
    assert(placed(k, gap_start(p, k), gap_end(p, k, m, m), olds, slots_of(before), known_views(before).len(), news, slots_of(after), e, ending));
    assert(news == olds.update(k, x.1));
    assert(slots_of(after)[k] == slots_of(before)[k]);
    assert(slots_of(after) =~= slots_of(before)) by {
        assert forall|j: int| 0 <= j < m implies slots_of(after)[j] == slots_of(before)[j] by {
            if j != k {
                let t = if j < k { j } else { j - 1 };
                assert(p[t].0 as int == j && p[t].1 as int == j);
            }
        }
    }
    lemma_views_determined(after, before.update(i, x));
}

/// When the advanced text written over a body view changes exactly one of its advanced lines,
/// that line keeps its place between the known fields and its terminator, and nothing else in
/// the body changes.
pub proof fn law_extras_one_change(
    before: Seq<(Option<KnownDirective>, Seq<char>)>,
    after: Seq<(Option<KnownDirective>, Seq<char>)>,
    extra: Seq<char>,
    ending: Seq<char>,
    i: int,
    s: Seq<char>,
)
    requires
        before.len() <= usize::MAX,
        edits_one_view(before, extra, i, s),
        extras_written(before, after, extra, ending),
    ensures
        after == before.update(i, (None, s + terminator(before[i].1))),
{
    let c = other_views(before).map_values(|l: Seq<char>| text::strip_term(l));
    if host::join_lines(c) == extra {
        lemma_joined_view_edits_nothing(before, extra, i, s);
    } else {
        let p = choose|p: Seq<(usize, usize)>|
            #![trigger keeps(p, other_views(before), other_views(after))]
            lcs::is_matching(p, c, host::extra_lines(extra), (0usize, 0usize)) && p.len() == lcs::lcs(c, host::extra_lines(extra))
                && p == hirschberg(c, host::extra_lines(extra), (0, 0)) && keeps(p, other_views(before), other_views(after))
                && keeps_slots(p, slots_of(before), slots_of(after)) && forall|k: int, j: int|
                0 <= k <= p.len() && gap_start(p, k).1 <= j < gap_end(
                    p,
                    k,
                    other_views(before).len() as int,
                    host::extra_lines(extra).len() as int,
                ).1 ==> #[trigger] placed(
                    j,
                    gap_start(p, k),
                    gap_end(p, k, other_views(before).len() as int, host::extra_lines(extra).len() as int),
                    other_views(before),
                    slots_of(before),
                    known_views(before).len(),
                    other_views(after),
                    slots_of(after),
                    host::extra_lines(extra),
                    ending,
                );
        lemma_views_one_change(before, after, extra, ending, p, i, s);
    }
}

/// The line-level form of `edits_one_view`.
proof fn lemma_edits_one_line_view(lines: Seq<BlockLine>, extra: Seq<char>, i: int, s: Seq<char>)
    requires
        edits_one_line(lines, extra, i, s),
    ensures
        edits_one_view(view_lines(lines), extra, i, s),
        view_lines(lines)[i].1 == lines[i].raw().0@,
{
    lemma_views_split(lines);
    lemma_views_split(lines.take(i));
    assert(view_lines(lines).take(i) == view_lines(lines.take(i)));
}

/// When `extra` changes exactly one advanced line of `lines0`, the result `lines1` that
/// `replace_extra_lines` describes is `lines0` with that one line's text replaced, its slot and
/// terminator kept.
proof fn lemma_one_change_result(
    lines0: Seq<BlockLine>,
    lines1: Seq<BlockLine>,
    extra: Seq<char>,
    ending: Seq<char>,
    p: Seq<(usize, usize)>,
    i: int,
    s: Seq<char>,
)
    requires
        edits_one_line(lines0, extra, i, s),
        lines0.len() <= usize::MAX,
        known_seq(lines1) == known_seq(lines0),
        host::other_raws(lines1).len() == host::extra_lines(extra).len(),
        p == hirschberg(host::other_texts(lines0), host::extra_lines(extra), (0, 0)),
        keeps(p, host::other_raws(lines0), host::other_raws(lines1)),
        keeps_slots(p, other_slots(lines0), other_slots(lines1)),
        forall|k: int, j: int|
            0 <= k <= p.len() && gap_start(p, k).1 <= j < gap_end(
                p,
                k,
                host::other_raws(lines0).len() as int,
                host::extra_lines(extra).len() as int,
            ).1 ==> #[trigger] placed(
                j,
                gap_start(p, k),
                gap_end(p, k, host::other_raws(lines0).len() as int, host::extra_lines(extra).len() as int),
                host::other_raws(lines0),
                other_slots(lines0),
                known_seq(lines0).len(),
                host::other_raws(lines1),
                other_slots(lines1),
                host::extra_lines(extra),
                ending,
            ),
    ensures
        view_lines(lines1) == view_lines(lines0).update(i, (None, s + terminator(lines0[i].raw().0@))),
{
    lemma_views_split(lines0);
    lemma_views_split(lines1);
    lemma_edits_one_line_view(lines0, extra, i, s);
    lemma_views_one_change(view_lines(lines0), view_lines(lines1), extra, ending, p, i, s);
}

/// Edit advanced text in place around unchanged lines. Replacements reuse old slots;
/// insertions go before the next unchanged advanced line, or after the last old slot.
/// The text editor has no markers for known fields: it cannot express moving a line
/// across one of those fields. Existing lines are never regrouped around them.
///
/// The old advanced lines are matched against the new ones by the longest common subsequence
/// [`anchors`] picks; each gap between matched lines is then emitted by [`emit_gap`], in order.
/// When the new text changes exactly one advanced line, that line keeps its place and its
/// terminator and nothing else in the block changes.
#[verifier::spinoff_prover]
#[verifier::rlimit(30)]
pub fn replace_extra_lines(block: &mut ManagedBlock, extra: &str)
    ensures
        final(block).alias == old(block).alias,
        final(block).header == old(block).header,
        host::join_lines(host::other_texts(old(block).lines@)) == extra@ ==> final(block).lines
            == old(block).lines,
        host::join_lines(host::other_texts(old(block).lines@)) != extra@ ==> {
            &&& known_seq(final(block).lines@) == known_seq(old(block).lines@)
            &&& host::other_raws(final(block).lines@).len() == host::extra_lines(extra@).len()
            &&& forall|k: int|
                0 <= k < host::extra_lines(extra@).len() ==> has_content(
                    #[trigger] host::other_raws(final(block).lines@)[k],
                    host::extra_lines(extra@)[k],
                )
            &&& exists|p: Seq<(usize, usize)>|
                #![trigger keeps(p, host::other_raws(old(block).lines@), host::other_raws(final(block).lines@))]
                lcs::is_matching(p, host::other_texts(old(block).lines@), host::extra_lines(extra@), (0usize, 0usize))
                    && p.len() == lcs::lcs(host::other_texts(old(block).lines@), host::extra_lines(extra@))
                    && p == hirschberg(host::other_texts(old(block).lines@), host::extra_lines(extra@), (0, 0))
                    && keeps(p, host::other_raws(old(block).lines@), host::other_raws(final(block).lines@))
                    && keeps_slots(p, other_slots(old(block).lines@), other_slots(final(block).lines@))
                    && forall|k: int, j: int|
                    0 <= k <= p.len() && gap_start(p, k).1 <= j < gap_end(
                        p,
                        k,
                        host::other_raws(old(block).lines@).len() as int,
                        host::extra_lines(extra@).len() as int,
                    ).1 ==> #[trigger] placed(
                        j,
                        gap_start(p, k),
                        gap_end(
                            p,
                            k,
                            host::other_raws(old(block).lines@).len() as int,
                            host::extra_lines(extra@).len() as int,
                        ),
                        host::other_raws(old(block).lines@),
                        other_slots(old(block).lines@),
                        known_seq(old(block).lines@).len(),
                        host::other_raws(final(block).lines@),
                        other_slots(final(block).lines@),
                        host::extra_lines(extra@),
                        ending_of(old(block).header.0@),
                    )
        },
        forall|i: int, s: Seq<char>|
            #[trigger] edits_one_line(old(block).lines@, extra@, i, s) ==> view_lines(final(block).lines@)
                == view_lines(old(block).lines@).update(i, (None, s + terminator(old(block).lines@[i].raw().0@))),
{
    let ghost lines0 = block.lines@;
    let (old_idx, old_text) = other_lines(&block.lines);
    let joined = host::join_with_newlines(&old_text);
    if same_text(joined.as_str(), extra) {
        proof {
            assert forall|i: int, s: Seq<char>| #[trigger] edits_one_line(lines0, extra@, i, s) implies false by {
                lemma_edits_one_line_view(lines0, extra@, i, s);
                lemma_views_split(lines0);
                lemma_joined_view_edits_nothing(view_lines(lines0), extra@, i, s);
            }
        }
        return ;
    }
    let new = host::split_extra(extra);
    let ghost nv = new@.map_values(|p: String| p@);
    let m = old_text.len();
    let n = new.len();
    let total = block.lines.len();
    let mut matches: Vec<(usize, usize)> = Vec::new();
    anchors(&old_text, &new, (0, 0), &mut matches);
    assert(matches@.skip(0) == matches@);
    let ghost anchored = matches@;
    matches.push((m, n));
    let ending = line_ending(block);
    proof {
        reveal_strlit("\n");
        reveal_strlit("\r\n");
        assert(is_term(ending@));
    }
    let mut result: Vec<BlockLine> = Vec::new();
    let mut q: usize = 0;
    let mut start: (usize, usize) = (0, 0);
    let mut t: usize = 0;
    assert(lines0.take(0) == Seq::<BlockLine>::empty());
    while t < matches.len()
        invariant
            lines0 == block.lines@,
            total == lines0.len(),
            lists_others(lines0, old_idx@, total as int),
            old_text@.map_values(|s: String| s@) == host::other_texts(lines0),
            m == old_idx@.len(),
            m == old_text@.len(),
            n == new@.len(),
            is_term(ending@),
            matches@ == anchored.push((m as usize, n as usize)),
            lcs::is_matching(anchored, texts_of(old_text@), texts_of(new@), (0, 0)),
            t <= matches@.len(),
            t < matches@.len() ==> {
                &&& start.0 <= matches@[t as int].0
                &&& start.1 <= matches@[t as int].1
                &&& q == if start.0 == 0 {
                    0
                } else {
                    old_idx@[start.0 - 1] + 1
                }
                &&& host::other_raws(lines0.take(q as int)).len() == start.0
                &&& host::other_raws(result@).len() == start.1
            },
            t == matches@.len() ==> q == total && host::other_raws(result@).len() == n,
            q <= total,
            known_seq(result@) == known_seq(lines0.take(q as int)),
            forall|j: int|
                0 <= j < host::other_raws(result@).len() ==> has_content(
                    #[trigger] host::other_raws(result@)[j],
                    new@[j]@,
                ),
            forall|t2: int|
                0 <= t2 < t && t2 < anchored.len() ==> (#[trigger] anchored[t2]).1 < host::other_raws(result@).len()
                    && host::other_raws(result@)[anchored[t2].1 as int] == host::other_raws(lines0)[anchored[t2].0 as int],
            forall|t2: int|
                0 <= t2 < t && t2 < anchored.len() ==> (#[trigger] anchored[t2]).1 < other_slots(result@).len()
                    && other_slots(result@)[anchored[t2].1 as int] == other_slots(lines0)[anchored[t2].0 as int],
            t < matches@.len() ==> (start.0 as int, start.1 as int) == gap_start(anchored, t as int),
            ending@ == ending_of(block.header.0@),
            forall|k: int, j: int|
                0 <= k < t && gap_start(anchored, k).1 <= j < gap_end(anchored, k, m as int, n as int).1 ==> #[trigger] placed(
                    j,
                    gap_start(anchored, k),
                    gap_end(anchored, k, m as int, n as int),
                    host::other_raws(lines0),
                    other_slots(lines0),
                    known_seq(lines0).len(),
                    host::other_raws(result@),
                    other_slots(result@),
                    texts_of(new@),
                    ending@,
                ),
        decreases matches@.len() - t,
    {
        let end = matches[t];
        proof {
            if t < anchored.len() {
                assert(matches@[t as int] == anchored[t as int]);
                assert(texts_of(old_text@)[end.0 as int] == texts_of(new@)[end.1 as int]);
            }
            if t + 1 < anchored.len() {
                assert(matches@[t + 1] == anchored[t + 1]);
                assert(anchored[t as int].0 < anchored[t + 1].0 && anchored[t as int].1 < anchored[t + 1].1);
            }
        }
        let ghost before = host::other_raws(result@);
        let ghost before_slots = other_slots(result@);
        let ghost before_result = result@;
        q = emit_gap(&block.lines, &old_idx, &old_text, &new, ending, &mut result, q, start, end);
        proof {
            assert((end.0 as int, end.1 as int) == gap_end(anchored, t as int, m as int, n as int)) by {
                if t < anchored.len() {
                    assert(matches@[t as int] == anchored[t as int]);
                } else {
                    assert(matches@[t as int] == (m as usize, n as usize));
                }
            }
            assert forall|k: int, j: int|
                0 <= k < t + 1 && gap_start(anchored, k).1 <= j < gap_end(anchored, k, m as int, n as int).1 implies #[trigger] placed(
                    j,
                    gap_start(anchored, k),
                    gap_end(anchored, k, m as int, n as int),
                    host::other_raws(lines0),
                    other_slots(lines0),
                    known_seq(lines0).len(),
                    host::other_raws(result@),
                    other_slots(result@),
                    texts_of(new@),
                    ending@,
                ) by {
                if k < t {
                    assert(gap_start(anchored, k).1 >= 0);
                    lemma_placed_keep(before_result, result@, gap_start(anchored, k), gap_end(anchored, k, m as int, n as int),
                        host::other_raws(lines0), other_slots(lines0), known_seq(lines0).len(), texts_of(new@), ending@);
                    assert(gap_end(anchored, k, m as int, n as int).1 <= host::other_raws(before_result).len()) by {
                        if k < anchored.len() {
                            assert(k + 1 <= t);
                        }
                    }
                }
            }
            lemma_other_slots_len(result@);
            assert forall|t2: int|
                0 <= t2 < t + 1 && t2 < anchored.len() implies (#[trigger] anchored[t2]).1 < other_slots(result@).len()
                    && other_slots(result@)[anchored[t2].1 as int] == other_slots(lines0)[anchored[t2].0 as int] by {
                if t2 < t {
                    assert(before_slots[anchored[t2].1 as int] == other_slots(lines0)[anchored[t2].0 as int]);
                } else {
                    assert(matches@[t as int] == anchored[t as int]);
                    assert(end.0 < m);
                }
            }
            assert forall|t2: int|
                0 <= t2 < t + 1 && t2 < anchored.len() implies (#[trigger] anchored[t2]).1 < host::other_raws(result@).len()
                    && host::other_raws(result@)[anchored[t2].1 as int] == host::other_raws(lines0)[anchored[t2].0 as int] by {
                if t2 < t {
                    assert(before[anchored[t2].1 as int] == host::other_raws(lines0)[anchored[t2].0 as int]);
                } else {
                    assert(matches@[t as int] == anchored[t as int]);
                    assert(end.0 < m);
                }
            }
        }
        if t + 1 < matches.len() {
            start = (end.0 + 1, end.1 + 1);
        }
        t += 1;
    }
    proof {
        assert(lines0.take(total as int) == lines0);
        assert forall|k: int| 0 <= k < host::extra_lines(extra@).len() implies has_content(
            #[trigger] host::other_raws(result@)[k],
            host::extra_lines(extra@)[k],
        ) by {
            assert(nv[k] == new@[k]@);
        }
        assert(texts_of(old_text@) == host::other_texts(lines0));
        assert(texts_of(new@) == host::extra_lines(extra@));
        assert(anchored == hirschberg(texts_of(old_text@), texts_of(new@), (0, 0)));
        assert(keeps(anchored, host::other_raws(lines0), host::other_raws(result@)));
        assert(keeps_slots(anchored, other_slots(lines0), other_slots(result@)));
        assert(texts_of(new@) == host::extra_lines(extra@));
        assert(host::other_raws(lines0).len() == m) by {
            lemma_lo_len(lines0, old_idx@, total as int);
        }
        assert forall|i: int, s: Seq<char>| #[trigger] edits_one_line(lines0, extra@, i, s) implies view_lines(result@)
            == view_lines(lines0).update(i, (None, s + terminator(lines0[i].raw().0@))) by {
            lemma_one_change_result(lines0, result@, extra@, ending@, anchored, i, s);
        }
    }
    block.lines = result;
}


// ---------------------------------------------------------------------------------------------
// Rewriting and creating blocks
// ---------------------------------------------------------------------------------------------
/// The header after a rewrite: the alias replaced when it changed, then terminated when body
/// lines follow an unterminated header.
pub open spec fn rewritten_header(old_header: Seq<char>, old_alias: Seq<char>, host: SshHost, has_body: bool) -> Seq<char> {
    let h = if old_alias == host.alias@ {
        old_header
    } else {
        with_value(old_header, host.alias@)
    };
    if has_body && lacks_newline(h) {
        h + ending_of(h)
    } else {
        h
    }
}

/// The known lines of a body view, in order.
pub open spec fn known_views(vs: Seq<(Option<KnownDirective>, Seq<char>)>) -> Seq<(Option<KnownDirective>, Seq<char>)>
    decreases vs.len(),
{
    if vs.len() == 0 {
        seq![]
    } else {
        let r = known_views(vs.drop_last());
        if vs.last().0 is Some {
            r.push(vs.last())
        } else {
            r
        }
    }
}

/// The texts of the other lines of a body view, in order.
pub open spec fn other_views(vs: Seq<(Option<KnownDirective>, Seq<char>)>) -> Seq<Seq<char>>
    decreases vs.len(),
{
    if vs.len() == 0 {
        seq![]
    } else {
        let r = other_views(vs.drop_last());
        if vs.last().0 is None {
            r.push(vs.last().1)
        } else {
            r
        }
    }
}

/// For each other entry of a body view, how many known entries precede it.
pub open spec fn slots_of(vs: Seq<(Option<KnownDirective>, Seq<char>)>) -> Seq<nat>
    decreases vs.len(),
{
    if vs.len() == 0 {
        seq![]
    } else {
        let r = slots_of(vs.drop_last());
        if vs.last().0 is None {
            r.push(known_views(vs.drop_last()).len())
        } else {
            r
        }
    }
}

pub proof fn lemma_views_split(lines: Seq<BlockLine>)
    ensures
        known_seq(lines) == known_views(view_lines(lines)),
        host::other_raws(lines) == other_views(view_lines(lines)),
        other_slots(lines) == slots_of(view_lines(lines)),
    decreases lines.len(),
{
    if lines.len() > 0 {
        lemma_views_split(lines.drop_last());
        assert(view_lines(lines).drop_last() == view_lines(lines.drop_last()));
    }
}

/// One form field: when the value the form holds differs from the block's, set or clear it.
pub open spec fn field_step(
    vs: Seq<(Option<KnownDirective>, Seq<char>)>,
    ending: Seq<char>,
    d: KnownDirective,
    held: Option<Seq<char>>,
    wanted: Option<Seq<char>>,
) -> Seq<(Option<KnownDirective>, Seq<char>)> {
    if held == wanted {
        vs
    } else {
        applied(vs, ending, d, wanted)
    }
}

/// The body once every form field that changed is written, in form order; what the block held
/// is read before any edit, from the first line of each directive.
pub open spec fn fields_written(lines: Seq<BlockLine>, ending: Seq<char>, h: SshHost) -> Seq<(Option<KnownDirective>, Seq<char>)> {
    let v1 = field_step(
        view_lines(lines),
        ending,
        KnownDirective::HostName,
        host::known_value(lines, KnownDirective::HostName),
        host::opt_view(h.host_name),
    );
    let v2 = field_step(
        v1,
        ending,
        KnownDirective::User,
        host::known_value(lines, KnownDirective::User),
        host::opt_view(h.user),
    );
    let v3 = field_step(
        v2,
        ending,
        KnownDirective::Port,
        port_text(host::port_of(host::known_value(lines, KnownDirective::Port))),
        port_text(h.port),
    );
    let v4 = field_step(
        v3,
        ending,
        KnownDirective::IdentityFile,
        host::known_value(lines, KnownDirective::IdentityFile),
        host::opt_view(h.identity_file),
    );
    field_step(
        v4,
        ending,
        KnownDirective::ProxyJump,
        host::known_value(lines, KnownDirective::ProxyJump),
        host::opt_view(h.proxy_jump),
    )
}

/// The body `after` the advanced text `extra` is written over `before`: nothing changes when
/// `extra` is what the other lines already say; else the known lines stay, in order, the other
/// lines are exactly the lines of `extra`, each followed by a terminator, and a longest common
/// subsequence of the old and new advanced lines keeps its old lines byte for byte, each between
/// the same known lines as before; between two kept lines, the first new lines take the slots
/// and terminators of the old lines there, and the rest, ending in `ending`, go after the last
/// of those old lines, or else before the next kept line (`placed`).
pub open spec fn extras_written(
    before: Seq<(Option<KnownDirective>, Seq<char>)>,
    after: Seq<(Option<KnownDirective>, Seq<char>)>,
    extra: Seq<char>,
    ending: Seq<char>,
) -> bool {
    if host::join_lines(other_views(before).map_values(|l: Seq<char>| text::strip_term(l))) == extra {
        after == before
    } else {
        &&& known_views(after) == known_views(before)
        &&& other_views(after).len() == host::extra_lines(extra).len()
        &&& forall|k: int|
            0 <= k < host::extra_lines(extra).len() ==> has_content(
                #[trigger] other_views(after)[k],
                host::extra_lines(extra)[k],
            )
        &&& exists|p: Seq<(usize, usize)>|
            #![trigger keeps(p, other_views(before), other_views(after))]
            lcs::is_matching(
                p,
                other_views(before).map_values(|l: Seq<char>| text::strip_term(l)),
                host::extra_lines(extra),
                (0usize, 0usize),
            ) && p.len() == lcs::lcs(
                other_views(before).map_values(|l: Seq<char>| text::strip_term(l)),
                host::extra_lines(extra),
            ) && p == hirschberg(
                other_views(before).map_values(|l: Seq<char>| text::strip_term(l)),
                host::extra_lines(extra),
                (0, 0),
            ) && keeps(p, other_views(before), other_views(after)) && keeps_slots(
                p,
                slots_of(before),
                slots_of(after),
            ) && forall|k: int, j: int|
                0 <= k <= p.len() && gap_start(p, k).1 <= j < gap_end(
                    p,
                    k,
                    other_views(before).len() as int,
                    host::extra_lines(extra).len() as int,
                ).1 ==> #[trigger] placed(
                    j,
                    gap_start(p, k),
                    gap_end(p, k, other_views(before).len() as int, host::extra_lines(extra).len() as int),
                    other_views(before),
                    slots_of(before),
                    known_views(before).len(),
                    other_views(after),
                    slots_of(after),
                    host::extra_lines(extra),
                    ending,
                )
    }
}

/// The texts once every line but the last that lacks a `\n` is given `ending`.
pub open spec fn terminated(ts: Seq<Seq<char>>, ending: Seq<char>) -> Seq<Seq<char>> {
    Seq::new(
        ts.len(),
        |i: int|
            if i + 1 < ts.len() && lacks_newline(ts[i]) {
                ts[i] + ending
            } else {
                ts[i]
            },
    )
}

/// The texts of a body view.
pub open spec fn view_texts(vs: Seq<(Option<KnownDirective>, Seq<char>)>) -> Seq<Seq<char>> {
    vs.map_values(|p: (Option<KnownDirective>, Seq<char>)| p.1)
}

/// The header of `old` once the alias is `host`'s.
pub open spec fn renamed_header(old: ManagedBlock, h: SshHost) -> Seq<char> {
    if old.alias@ == h.alias@ {
        old.header.0@
    } else {
        with_value(old.header.0@, h.alias@)
    }
}

/// What a rewrite of block `old` for `host` gives: the alias and header renamed; the changed
/// form fields written (`fields_written`), then the advanced text (`extras_written`); every
/// line but the last terminated, the header too when lines follow it; and the lines classified
/// afresh from their texts.
pub open spec fn rewritten(old: ManagedBlock, new: ManagedBlock, host: SshHost) -> bool {
    let ending = ending_of(renamed_header(old, host));
    &&& new.alias@ == host.alias@
    &&& new.header.0@ == rewritten_header(old.header.0@, old.alias@, host, new.lines.len() > 0)
    &&& parser::well_classified(new.lines@)
    &&& exists|m: Seq<(Option<KnownDirective>, Seq<char>)>|
        #![trigger extras_written(fields_written(old.lines@, ending, host), m, host.extra@, ending)]
        extras_written(fields_written(old.lines@, ending, host), m, host.extra@, ending)
            && model::body_texts(new.lines@) == terminated(view_texts(m), ending)
}

fn opt_differs(a: &Option<String>, b: &Option<String>) -> (r: bool)
    ensures
        r == (host::opt_view(*a) != host::opt_view(*b)),
{
    match (a, b) {
        (Some(x), Some(y)) => !same_text(x.as_str(), y.as_str()),
        (None, None) => false,
        _ => true,
    }
}

fn as_deref(a: &Option<String>) -> (r: Option<&str>)
    ensures
        opt_str(r) == host::opt_view(*a),
{
    match a {
        Some(x) => Some(x.as_str()),
        None => None,
    }
}

pub fn rewrite_block(block: &mut ManagedBlock, host: &SshHost)
    ensures
        rewritten(*old(block), *final(block), *host),
{
    let ghost old_block = *block;
    let ghost old_header = block.header.0@;
    let ghost old_alias = block.alias@;
    let ghost lines0 = block.lines@;
    if !same_text(host.alias.as_str(), block.alias.as_str()) {
        set_header_alias(&mut block.header, host.alias.as_str());
        block.alias = host.alias.clone();
    }
    let ghost h1 = block.header.0@;
    let ghost e = ending_of(h1);
    assert(h1 == renamed_header(old_block, *host));
    let previous = host_from_managed(block);
    let ghost v0 = view_lines(lines0);
    if opt_differs(&previous.host_name, &host.host_name) {
        apply_known_field(block, KnownDirective::HostName, as_deref(&host.host_name));
    }
    let ghost v1 = view_lines(block.lines@);
    assert(v1 == field_step(v0, e, KnownDirective::HostName, host::known_value(lines0, KnownDirective::HostName), host::opt_view(host.host_name)));
    if opt_differs(&previous.user, &host.user) {
        apply_known_field(block, KnownDirective::User, as_deref(&host.user));
    }
    let ghost v2 = view_lines(block.lines@);
    assert(v2 == field_step(v1, e, KnownDirective::User, host::known_value(lines0, KnownDirective::User), host::opt_view(host.user)));
    let old_port = port_value(&previous);
    let new_port = port_value(host);
    proof {
        assert(host::opt_view(old_port) == port_text(host::port_of(host::known_value(lines0, KnownDirective::Port))));
        assert(host::opt_view(new_port) == port_text(host.port));
    }
    if opt_differs(&old_port, &new_port) {
        apply_known_field(block, KnownDirective::Port, as_deref(&new_port));
    }
    let ghost v3 = view_lines(block.lines@);
    assert(v3 == field_step(v2, e, KnownDirective::Port, port_text(host::port_of(host::known_value(lines0, KnownDirective::Port))), port_text(host.port)));
    if opt_differs(&previous.identity_file, &host.identity_file) {
        apply_known_field(block, KnownDirective::IdentityFile, as_deref(&host.identity_file));
    }
    let ghost v4 = view_lines(block.lines@);
    assert(v4 == field_step(v3, e, KnownDirective::IdentityFile, host::known_value(lines0, KnownDirective::IdentityFile), host::opt_view(host.identity_file)));
    if opt_differs(&previous.proxy_jump, &host.proxy_jump) {
        apply_known_field(block, KnownDirective::ProxyJump, as_deref(&host.proxy_jump));
    }
    let ghost fields = block.lines@;
    assert(view_lines(fields) == fields_written(lines0, e, *host));
    replace_extra_lines(block, host.extra.as_str());
    let ghost mid = view_lines(block.lines@);
    proof {
        lemma_views_split(fields);
        lemma_views_split(block.lines@);
        assert(host::other_texts(fields) == other_views(view_lines(fields)).map_values(|l: Seq<char>| text::strip_term(l)));
        assert(extras_written(view_lines(fields), mid, host.extra@, e));
    }
    // An insertion after an unterminated final line needs a separator. Otherwise
    // leave every existing terminator untouched, including the last line at EOF.
    let ending = line_ending(block);
    if block.lines.len() > 0 && !ends_with_newline(block.header.0.as_str()) {
        let t = concat_str(block.header.0.as_str(), ending);
        block.header = RawLine(t);
    }
    let ghost ts = view_texts(mid);
    let len = block.lines.len();
    let mut raws: Vec<RawLine> = Vec::new();
    let mut i: usize = 0;
    while i < len
        invariant
            len == block.lines@.len(),
            mid == view_lines(block.lines@),
            ts == view_texts(mid),
            ending@ == e,
            i <= len,
            raws@.len() == i,
            forall|k: int| 0 <= k < i ==> (#[trigger] raws@[k]).0@ == terminated(ts, e)[k],
        decreases len - i,
    {
        let raw = block.lines[i].raw_line();
        assert(ts[i as int] == raw.0@);
        if i + 1 < len && !ends_with_newline(raw.0.as_str()) {
            raws.push(RawLine(concat_str(raw.0.as_str(), ending)));
        } else {
            raws.push(raw.dup());
        }
        i += 1;
    }
    // Advanced edits may add/remove a first occurrence of a known directive.
    // Reclassify so a subsequent edit in the same model sees the saved text.
    block.lines = classify_body(raws);
    assert(model::body_texts(block.lines@) == terminated(ts, e));
    assert(extras_written(fields_written(lines0, e, *host), mid, host.extra@, e));
}

/// A block terminated as a parsed document leaves it: the header ends with `\n` when lines
/// follow, and so does every line but the last.
pub open spec fn settled(b: ManagedBlock) -> bool {
    &&& b.lines.len() > 0 ==> !lacks_newline(b.header.0@)
    &&& forall|k: int| 0 <= k < b.lines.len() - 1 ==> !lacks_newline(#[trigger] b.lines@[k].raw().0@)
}

/// Two well-classified bodies with the same texts classify every line alike.
pub proof fn lemma_classified_by_texts(a: Seq<BlockLine>, b: Seq<BlockLine>)
    requires
        parser::well_classified(a),
        parser::well_classified(b),
        model::body_texts(a) == model::body_texts(b),
    ensures
        view_lines(a) == view_lines(b),
{
    assert(a.len() == model::body_texts(a).len());
    assert forall|i: int| 0 <= i < a.len() implies #[trigger] view_line(a[i]) == view_line(b[i]) by {
        assert(model::body_texts(a)[i] == a[i].raw().0@);
        assert(model::body_texts(b)[i] == b[i].raw().0@);
        assert(a[i] is Known <==> parser::first_occurrence(model::body_texts(a), i));
        assert(b[i] is Known <==> parser::first_occurrence(model::body_texts(b), i));
    }
    assert(view_lines(a) =~= view_lines(b));
}

/// Saving a host exactly as it was read from its block leaves the block as it was: the same
/// alias, header and lines, byte for byte.
pub proof fn law_rewrite_read_host_is_identity(old: ManagedBlock, new: ManagedBlock, h: SshHost)
    requires
        parser::well_classified(old.lines@),
        settled(old),
        host::host_describes(h, old),
        rewritten(old, new, h),
    ensures
        new.alias@ == old.alias@,
        new.header.0@ == old.header.0@,
        view_lines(new.lines@) == view_lines(old.lines@),
{
    let lines = old.lines@;
    let v0 = view_lines(lines);
    let e = ending_of(renamed_header(old, h));
    assert(renamed_header(old, h) == old.header.0@);
    assert(fields_written(lines, e, h) == v0);
    lemma_views_split(lines);
    assert(host::other_texts(lines) == other_views(v0).map_values(|l: Seq<char>| text::strip_term(l)));
    let m = choose|m: Seq<(Option<KnownDirective>, Seq<char>)>|
        #![trigger extras_written(fields_written(lines, e, h), m, h.extra@, e)]
        extras_written(fields_written(lines, e, h), m, h.extra@, e) && model::body_texts(new.lines@)
            == terminated(view_texts(m), e);
    assert(m == v0);
    assert(terminated(view_texts(v0), e) =~= model::body_texts(lines)) by {
        assert forall|k: int| 0 <= k < lines.len() implies #[trigger] terminated(view_texts(v0), e)[k]
            == model::body_texts(lines)[k] by {
            if k + 1 < lines.len() {
                assert(!lacks_newline(lines[k].raw().0@));
            }
        }
    }
    lemma_classified_by_texts(new.lines@, lines);
}

/// The form fields of `h` are the values block `b` holds.
pub open spec fn fields_held(h: SshHost, b: ManagedBlock) -> bool {
    &&& host::opt_view(h.host_name) == host::known_value(b.lines@, KnownDirective::HostName)
    &&& host::opt_view(h.user) == host::known_value(b.lines@, KnownDirective::User)
    &&& h.port == host::port_of(host::known_value(b.lines@, KnownDirective::Port))
    &&& host::opt_view(h.identity_file) == host::known_value(b.lines@, KnownDirective::IdentityFile)
    &&& host::opt_view(h.proxy_jump) == host::known_value(b.lines@, KnownDirective::ProxyJump)
}

/// Saving a block's host with its fields as they are and one advanced line changed rewrites
/// that line alone, in place: its new text followed by the old line's terminator. Every other
/// line and the header keep their bytes.
pub proof fn law_rewrite_one_advanced_line(old: ManagedBlock, new: ManagedBlock, h: SshHost, i: int, s: Seq<char>)
    requires
        settled(old),
        h.alias@ == old.alias@,
        fields_held(h, old),
        edits_one_line(old.lines@, h.extra@, i, s),
        rewritten(old, new, h),
    ensures
        new.alias@ == old.alias@,
        new.header.0@ == old.header.0@,
        model::body_texts(new.lines@) == model::body_texts(old.lines@).update(i, s + terminator(old.lines@[i].raw().0@)),
{
    let lines = old.lines@;
    let v0 = view_lines(lines);
    let e = ending_of(renamed_header(old, h));
    assert(renamed_header(old, h) == old.header.0@);
    assert(fields_written(lines, e, h) == v0);
    assert(old.lines.len() == lines.len());
    let m = choose|m: Seq<(Option<KnownDirective>, Seq<char>)>|
        #![trigger extras_written(fields_written(lines, e, h), m, h.extra@, e)]
        extras_written(fields_written(lines, e, h), m, h.extra@, e) && model::body_texts(new.lines@)
            == terminated(view_texts(m), e);
    lemma_edits_one_line_view(lines, h.extra@, i, s);
    let raw = lines[i].raw().0@;
    let x = (None::<KnownDirective>, s + terminator(raw));
    law_extras_one_change(v0, m, h.extra@, e, i, s);
    assert(m == v0.update(i, x));
    lemma_split_term(raw);
    let want = model::body_texts(lines).update(i, x.1);
    assert(terminated(view_texts(m), e) =~= want) by {
        assert forall|k: int| 0 <= k < lines.len() implies #[trigger] terminated(view_texts(m), e)[k] == want[k] by {
            if k + 1 < lines.len() {
                assert(!lacks_newline(lines[k].raw().0@));
                if k == i {
                    assert(terminator(raw).len() > 0);
                    assert(x.1.last() == terminator(raw).last());
                    assert(terminator(raw).last() == raw.last());
                }
            }
        }
    }
    assert(new.lines@.len() == lines.len()) by {
        assert(model::body_texts(new.lines@).len() == new.lines@.len());
    }
}

/// In a document cut into lines, the texts of segment `i` sit together: every one but the
/// document's last line ends with `\n`, so a managed block there is settled.
pub proof fn lemma_parsed_block_settled(segs: Seq<Segment>, text: Seq<char>, i: int)
    requires
        parser::is_line_split(model::segment_texts(segs), text),
        0 <= i < segs.len(),
        segs[i] is Managed,
    ensures
        settled(segs[i]->Managed_0),
{
    let b = segs[i]->Managed_0;
    let st = segs.map_values(|s: Segment| s.texts());
    let t = model::segment_texts(segs);
    let x = st.take(i);
    let y = st.skip(i + 1);
    assert(st == x + seq![st[i]] + y);
    vstd::seq_lib::lemma_flatten_concat(x + seq![st[i]], y);
    vstd::seq_lib::lemma_flatten_concat(x, seq![st[i]]);
    assert(seq![st[i]].flatten() == st[i]) by {
        seq![st[i]].lemma_flatten_one_element();
    }
    let off = x.flatten().len();
    let bt = st[i];
    assert(bt == b.texts());
    assert(t == x.flatten() + bt + y.flatten());
    assert forall|k: int| 0 <= k < bt.len() - 1 implies !lacks_newline(#[trigger] bt[k]) by {
        assert(t[off + k] == bt[k]);
        assert(t[off + k].len() > 0);
    }
    if b.lines.len() > 0 {
        assert(bt[0] == b.header.0@);
    }
    assert forall|k: int| 0 <= k < b.lines.len() - 1 implies !lacks_newline(#[trigger] b.lines@[k].raw().0@) by {
        assert(bt[k + 1] == b.lines@[k].raw().0@);
    }
}

/// Saving the host read from a document's managed block, unchanged, leaves the whole document
/// byte for byte as it was.
pub proof fn law_upsert_read_host_keeps_document(segs: Seq<Segment>, new: Seq<Segment>, i: int, h: SshHost)
    requires
        parser::well_parsed(segs),
        parser::is_line_split(model::segment_texts(segs), model::rendered(segs)),
        0 <= i < segs.len(),
        segs[i] is Managed,
        is_first_managed(segs, segs[i]->Managed_0.alias@, i),
        host::host_describes(h, segs[i]->Managed_0),
        upserted(segs, new, h),
    ensures
        model::rendered(new) == model::rendered(segs),
{
    let b = segs[i]->Managed_0;
    let c = choose|c: int| is_first_managed(segs, h.alias@, c);
    lemma_first_managed_unique(segs, h.alias@, i, c);
    assert(parser::segment_ok(segs[i]));
    lemma_parsed_block_settled(segs, model::rendered(segs), i);
    let nb = new[i]->Managed_0;
    law_rewrite_read_host_is_identity(b, nb, h);
    assert(model::body_texts(nb.lines@) =~= model::body_texts(b.lines@)) by {
        assert forall|k: int| 0 <= k < b.lines.len() implies #[trigger] model::body_texts(nb.lines@)[k]
            == model::body_texts(b.lines@)[k] by {
            assert(view_lines(nb.lines@)[k] == view_lines(b.lines@)[k]);
        }
    }
    assert(new[i].texts() == segs[i].texts());
    assert(new.map_values(|s: Segment| s.texts()) =~= segs.map_values(|s: Segment| s.texts()));
}

/// Saving the host read from a document's managed block, unchanged, leaves a document that
/// parses as the first did: the same lines, cut into the same segments, the block still the
/// first one for its alias and classified as before.
pub proof fn law_upsert_read_host_keeps_parse(segs: Seq<Segment>, new: Seq<Segment>, i: int, h: SshHost)
    requires
        parser::well_parsed(segs),
        parser::is_line_split(model::segment_texts(segs), model::rendered(segs)),
        0 <= i < segs.len(),
        segs[i] is Managed,
        is_first_managed(segs, segs[i]->Managed_0.alias@, i),
        host::host_describes(h, segs[i]->Managed_0),
        upserted(segs, new, h),
    ensures
        parser::well_parsed(new),
        model::segment_texts(new) == model::segment_texts(segs),
        parser::is_line_split(model::segment_texts(new), model::rendered(new)),
        new.len() == segs.len(),
        forall|j: int| 0 <= j < segs.len() && j != i ==> #[trigger] new[j] == segs[j],
        new[i] is Managed,
        new[i]->Managed_0.alias@ == segs[i]->Managed_0.alias@,
        new[i]->Managed_0.header.0@ == segs[i]->Managed_0.header.0@,
        view_lines(new[i]->Managed_0.lines@) == view_lines(segs[i]->Managed_0.lines@),
        is_first_managed(new, new[i]->Managed_0.alias@, i),
{
    let b = segs[i]->Managed_0;
    let c = choose|c: int| is_first_managed(segs, h.alias@, c);
    lemma_first_managed_unique(segs, h.alias@, i, c);
    assert(parser::segment_ok(segs[i]));
    lemma_parsed_block_settled(segs, model::rendered(segs), i);
    law_upsert_read_host_keeps_document(segs, new, i, h);
    let nb = new[i]->Managed_0;
    law_rewrite_read_host_is_identity(b, nb, h);
    assert(model::body_texts(nb.lines@) =~= model::body_texts(b.lines@)) by {
        assert forall|k: int| 0 <= k < b.lines.len() implies #[trigger] model::body_texts(nb.lines@)[k]
            == model::body_texts(b.lines@)[k] by {
            assert(view_lines(nb.lines@)[k] == view_lines(b.lines@)[k]);
        }
    }
    assert(new[i].texts() == segs[i].texts());
    assert(new.map_values(|s: Segment| s.texts()) =~= segs.map_values(|s: Segment| s.texts()));
    assert(parser::managed_ok(nb)) by {
        assert forall|k: int| 0 <= k < nb.lines.len() implies !parser::starts_block(#[trigger] nb.lines@[k].raw().0@) by {
            assert(view_lines(nb.lines@)[k] == view_lines(b.lines@)[k]);
            assert(!parser::starts_block(b.lines@[k].raw().0@));
        }
        if nb.lines.len() > 0 {
            let n = nb.lines.len() - 1;
            assert(view_lines(nb.lines@)[n] == view_lines(b.lines@)[n]);
        }
    }
    assert forall|j: int| 0 <= j < new.len() implies parser::segment_ok(#[trigger] new[j]) by {
        if j != i {
            assert(parser::segment_ok(segs[j]));
        }
    }
    assert forall|j: int| 0 < j < new.len() implies parser::follows(new[j - 1], #[trigger] new[j]) by {
        assert(parser::follows(segs[j - 1], segs[j]));
    }
    assert forall|j: int| 0 <= j < i implies !is_managed_alias(#[trigger] new[j], nb.alias@) by {
        assert(new[j] == segs[j]);
    }
}

/// Reading the host back from the saved block and saving it once more still leaves the whole
/// document byte for byte as it was first read.
pub proof fn law_second_upsert_keeps_document(
    segs: Seq<Segment>,
    new: Seq<Segment>,
    newer: Seq<Segment>,
    i: int,
    h: SshHost,
    h2: SshHost,
)
    requires
        parser::well_parsed(segs),
        parser::is_line_split(model::segment_texts(segs), model::rendered(segs)),
        0 <= i < segs.len(),
        segs[i] is Managed,
        is_first_managed(segs, segs[i]->Managed_0.alias@, i),
        host::host_describes(h, segs[i]->Managed_0),
        upserted(segs, new, h),
        host::host_describes(h2, new[i]->Managed_0),
        upserted(new, newer, h2),
    ensures
        model::rendered(newer) == model::rendered(segs),
{
    law_upsert_read_host_keeps_parse(segs, new, i, h);
    law_upsert_read_host_keeps_document(segs, new, i, h);
    law_upsert_read_host_keeps_document(new, newer, i, h2);
}

/// The header of a new block: `Host <alias>` and `\n`.
pub open spec fn new_header(alias: Seq<char>) -> Seq<char> {
    seq!['H', 'o', 's', 't', ' '] + alias + lf()
}

pub open spec fn field_line(d: KnownDirective, v: Option<Seq<char>>) -> Seq<(Option<KnownDirective>, Seq<char>)> {
    match v {
        Some(x) => seq![(Some(d), new_known_text(d, x, lf()))],
        None => seq![],
    }
}

pub open spec fn port_text(p: Option<u16>) -> Option<Seq<char>> {
    match p {
        Some(n) => Some(host::decimal(n as nat)),
        None => None,
    }
}

/// The body of a new block: the set fields in form order, then the advanced lines.
pub open spec fn new_block_views(h: SshHost) -> Seq<(Option<KnownDirective>, Seq<char>)> {
    field_line(KnownDirective::HostName, host::opt_view(h.host_name)) + field_line(
        KnownDirective::User,
        host::opt_view(h.user),
    ) + field_line(KnownDirective::Port, port_text(h.port)) + field_line(
        KnownDirective::IdentityFile,
        host::opt_view(h.identity_file),
    ) + field_line(KnownDirective::ProxyJump, host::opt_view(h.proxy_jump))
        + host::extra_lines(h.extra@).map_values(|p: Seq<char>| (None::<KnownDirective>, p + lf()))
}

fn push_field(lines: &mut Vec<BlockLine>, directive: KnownDirective, value: &Option<String>)
    ensures
        view_lines(final(lines)@) == view_lines(old(lines)@) + field_line(directive, host::opt_view(*value)),
{
    match value {
        Some(v) => {
            let ghost before = lines@;
            lines.push(BlockLine::Known { directive, line: build_known_line(directive, v.as_str()) });
            assert(view_lines(lines@) == view_lines(before).push(view_line(lines@.last())));
        },
        None => {
            assert(view_lines(lines@) =~= view_lines(lines@) + Seq::<(Option<KnownDirective>, Seq<char>)>::empty());
        },
    }
}

pub fn build_new_block(host: &SshHost) -> (block: ManagedBlock)
    ensures
        block.alias@ == host.alias@,
        block.header.0@ == new_header(host.alias@),
        view_lines(block.lines@) == new_block_views(*host),
{
    let hv = vec!['H', 'o', 's', 't', ' '];
    let nl = vec!['\n'];
    let mut header = string_of(&hv);
    header.append(host.alias.as_str());
    header.append(string_of(&nl).as_str());
    let mut lines: Vec<BlockLine> = Vec::new();
    assert(view_lines(lines@) == Seq::<(Option<KnownDirective>, Seq<char>)>::empty());
    push_field(&mut lines, KnownDirective::HostName, &host.host_name);
    push_field(&mut lines, KnownDirective::User, &host.user);
    push_field(&mut lines, KnownDirective::Port, &port_value(host));
    push_field(&mut lines, KnownDirective::IdentityFile, &host.identity_file);
    push_field(&mut lines, KnownDirective::ProxyJump, &host.proxy_jump);
    let ghost fields = view_lines(lines@);
    let parts = host::split_extra(host.extra.as_str());
    let ghost pv = parts@.map_values(|p: String| p@);
    let mut i: usize = 0;
    while i < parts.len()
        invariant
            i <= parts@.len(),
            pv == parts@.map_values(|p: String| p@),
            view_lines(lines@) == fields + pv.take(i as int).map_values(|p: Seq<char>| (None::<KnownDirective>, p + lf())),
        decreases parts.len() - i,
    {
        let ghost before = lines@;
        let nl2 = vec!['\n'];
        let text = concat_str(parts[i].as_str(), string_of(&nl2).as_str());
        lines.push(BlockLine::Other(RawLine(text)));
        proof {
            assert(text@ == pv[i as int] + lf());
            assert(view_line(lines@.last()) == (None::<KnownDirective>, pv[i as int] + lf()));
            assert(view_lines(lines@) =~= view_lines(before).push((None::<KnownDirective>, pv[i as int] + lf())));
            assert(pv.take(i + 1).map_values(|p: Seq<char>| (None::<KnownDirective>, p + lf())) == pv.take(i as int).map_values(|p: Seq<char>| (None::<KnownDirective>, p + lf())).push((None::<KnownDirective>, pv[i as int] + lf())));
        }
        i += 1;
    }
    assert(pv.take(i as int) == pv);
    ManagedBlock { alias: host.alias.clone(), header: RawLine(header), lines }
}

/// What `upsert` guarantees: the managed block for `host.alias` is rewritten in place, or,
/// when there is none, a new block is appended after a separator.
pub open spec fn upserted(old: Seq<Segment>, new: Seq<Segment>, host: SshHost) -> bool {
    if has_managed(old, host.alias@) {
        let i = choose|i: int| is_first_managed(old, host.alias@, i);
        &&& new.len() == old.len()
        &&& forall|j: int| 0 <= j < old.len() && j != i ==> #[trigger] new[j] == old[j]
        &&& new[i] is Managed
        &&& rewritten(old[i]->Managed_0, new[i]->Managed_0, host)
    } else {
        appended(old, new, host)
    }
}

/// `new` is `old`, made appendable, followed by a new block built from `host`: the old segments
/// keep their kinds and aliases, all but the last unchanged; the segments added before the new
/// block are plain runs, and in a non-empty document the last of them ends in a blank line.
pub open spec fn appended(old: Seq<Segment>, new: Seq<Segment>, host: SshHost) -> bool {
    &&& new.len() > 0
    &&& old.len() < new.len()
    &&& forall|i: int| 0 <= i < old.len() - 1 ==> #[trigger] new[i] == old[i]
    &&& forall|i: int| old.len() <= i < new.len() - 1 ==> (#[trigger] new[i]) is Raw
    &&& same_blocks(old, new.take(old.len() as int))
    &&& old.len() > 0 ==> (new[new.len() - 2] matches Segment::Raw(ls) && ls@.len() > 0 && ls@.last().0@ == lf())
    &&& model::segment_texts(new.drop_last()) == appendable_texts(old)
    &&& new.last() matches Segment::Managed(b) && b.alias@ == host.alias@ && b.header.0@
        == new_header(host.alias@) && view_lines(b.lines@) == new_block_views(host)
    &&& model::rendered(new) == model::rendered(old) + separator(old) + new.last().texts().flatten()
    &&& forall|a: Seq<char>| #[trigger] has_managed(new.drop_last(), a) == has_managed(old, a)
}

/// What precedes a new block: nothing in an empty document; else a terminator for an
/// unterminated last line and one blank line.
pub open spec fn separator(old: Seq<Segment>) -> Seq<char> {
    if old.len() == 0 {
        Seq::<char>::empty()
    } else {
        (match last_line(old) {
            Some(l) => if lacks_newline(l) {
                lf()
            } else {
                Seq::<char>::empty()
            },
            None => Seq::<char>::empty(),
        }) + lf()
    }
}

fn append_new_block(segments: &mut Vec<Segment>, host: &SshHost)
    ensures
        appended(old(segments)@, final(segments)@, *host),
{
    let ghost start = segments@;
    ensure_appendable(segments);
    let ghost mid = segments@;
    assert(model::rendered(mid) == model::rendered(start) + separator(start)) by {
        if start.len() == 0 {
            assert(model::rendered(start) + separator(start) =~= model::rendered(start));
        }
    }
    let block = build_new_block(host);
    segments.push(Segment::Managed(block));
    proof {
        assert(segments@.drop_last() == mid);
        assert(segments@ == mid + seq![Segment::Managed(block)]);
        model::lemma_rendered_concat(mid, seq![Segment::Managed(block)]);
        lemma_rendered_single(Segment::Managed(block));
        assert(segments@.last() == Segment::Managed(block));
        assert(segments@.take(start.len() as int) == mid.take(start.len() as int));
        assert forall|i: int| 0 <= i < start.len() - 1 implies #[trigger] segments@[i] == start[i] by {
            assert(segments@[i] == mid[i]);
        }
        assert forall|i: int| start.len() <= i < segments@.len() - 1 implies (#[trigger] segments@[i]) is Raw by {
            assert(segments@[i] == mid[i]);
        }
        if start.len() > 0 {
            assert(segments@[segments@.len() - 2] == mid.last());
        }
    }
}

fn rewrite_at(segments: &mut Vec<Segment>, idx: usize, host: &SshHost)
    requires
        idx < old(segments)@.len(),
        old(segments)@[idx as int] is Managed,
    ensures
        final(segments)@.len() == old(segments)@.len(),
        forall|j: int| 0 <= j < old(segments)@.len() && j != idx ==> #[trigger] final(segments)@[j] == old(segments)@[j],
        final(segments)@[idx as int] is Managed,
        rewritten(old(segments)@[idx as int]->Managed_0, final(segments)@[idx as int]->Managed_0, *host),
{
    let ghost before = segments@;
    let mut seg = Segment::Raw(Vec::new());
    std::mem::swap(&mut seg, &mut segments[idx]);
    match &mut seg {
        Segment::Managed(block) => {
            rewrite_block(block, host);
        },
        Segment::Raw(_) => {},
    }
    segments.set(idx, seg);
}

pub fn upsert(segments: &mut Vec<Segment>, host: &SshHost)
    ensures
        upserted(old(segments)@, final(segments)@, *host),
{
    match find_managed_index(segments, host.alias.as_str()) {
        Some(idx) => {
            proof {
                let c = choose|i: int| is_first_managed(segments@, host.alias@, i);
                lemma_first_managed_unique(segments@, host.alias@, idx as int, c);
            }
            rewrite_at(segments, idx, host);
        },
        None => {
            append_new_block(segments, host);
        },
    }
}

/// Upsert under a possibly-renamed alias: `previous_alias` locates the block to edit even when
/// `host.alias` differs from it (renaming), falling back to a plain upsert otherwise.
pub fn upsert_renaming(segments: &mut Vec<Segment>, previous_alias: Option<&str>, host: &SshHost)
    ensures
        match previous_alias {
            Some(a) => if has_managed(old(segments)@, a@) {
                let i = choose|i: int| is_first_managed(old(segments)@, a@, i);
                &&& final(segments)@.len() == old(segments)@.len()
                &&& forall|j: int| 0 <= j < old(segments)@.len() && j != i ==> #[trigger] final(segments)@[j] == old(segments)@[j]
                &&& final(segments)@[i] is Managed
                &&& rewritten(old(segments)@[i]->Managed_0, final(segments)@[i]->Managed_0, *host)
            } else {
                upserted(old(segments)@, final(segments)@, *host)
            },
            None => upserted(old(segments)@, final(segments)@, *host),
        },
{
    let idx = match previous_alias {
        Some(a) => find_managed_index(segments, a),
        None => None,
    };
    match idx {
        Some(idx) => {
            proof {
                let a = previous_alias->0;
                let c = choose|i: int| is_first_managed(segments@, a@, i);
                lemma_first_managed_unique(segments@, a@, idx as int, c);
            }
            rewrite_at(segments, idx, host);
        },
        None => upsert(segments, host),
    }
}

} // verus!
