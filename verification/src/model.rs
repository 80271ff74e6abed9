//! The in-memory model of an `ssh_config` document and the views the contracts speak of.
//!
//! A document is an ordered list of [`Segment`]s; every segment owns the input lines it was
//! built from, each [`RawLine`] keeping its own terminator. The text of a segment list is the
//! concatenation of all its lines, in order.
use vstd::prelude::*;

use crate::text::{self, chars_of, range_eq_ic};

verus! {

/// One physical line, verbatim, including its `\n`/`\r\n` terminator (if any).
#[derive(Debug, Clone, PartialEq, Eq)]
pub struct RawLine(pub String);

/// The `Host` directives the editor form maps to fields.
#[derive(Debug, Clone, Copy, PartialEq, Eq, Structural)]
pub enum KnownDirective {
    HostName,
    User,
    Port,
    IdentityFile,
    ProxyJump,
}

/// A line of a managed block's body: the first occurrence of a known directive, or anything
/// else (comments, blanks, unknown or repeated directives), kept verbatim.
#[derive(Debug, Clone, PartialEq, Eq)]
pub enum BlockLine {
    Known { directive: KnownDirective, line: RawLine },
    Other(RawLine),
}

/// A `Host` block with exactly one plain pattern, the only shape the editor rewrites.
#[derive(Debug, Clone, PartialEq, Eq)]
pub struct ManagedBlock {
    pub alias: String,
    pub header: RawLine,
    pub lines: Vec<BlockLine>,
}

/// A run of lines kept as they are, or a managed block.
#[derive(Debug, Clone, PartialEq, Eq)]
pub enum Segment {
    Raw(Vec<RawLine>),
    Managed(ManagedBlock),
}

/// The editable view of one host, as the form shows it.
#[derive(Debug, Clone, PartialEq, Eq)]
pub struct SshHost {
    pub alias: String,
    pub host_name: Option<String>,
    pub user: Option<String>,
    pub port: Option<u16>,
    pub identity_file: Option<String>,
    pub proxy_jump: Option<String>,
    /// The block's unmapped lines, without terminators, joined by `\n`.
    pub extra: String,
    pub read_only: bool,
}

impl Default for SshHost {
    fn default() -> (h: SshHost)
        ensures
            h.alias@ == Seq::<char>::empty(),
            h.host_name is None,
            h.user is None,
            h.port is None,
            h.identity_file is None,
            h.proxy_jump is None,
            h.extra@ == Seq::<char>::empty(),
            !h.read_only,
    {
        SshHost {
            alias: String::new(),
            host_name: None,
            user: None,
            port: None,
            identity_file: None,
            proxy_jump: None,
            extra: String::new(),
            read_only: false,
        }
    }
}

impl SshHost {
    /// An empty, editable host named `alias`.
    pub fn new(alias: &str) -> (h: SshHost)
        ensures
            h.alias@ == alias@,
            h.host_name is None,
            h.user is None,
            h.port is None,
            h.identity_file is None,
            h.proxy_jump is None,
            h.extra@ == Seq::<char>::empty(),
            !h.read_only,
    {
        SshHost {
            alias: String::from_str(alias),
            host_name: None,
            user: None,
            port: None,
            identity_file: None,
            proxy_jump: None,
            extra: String::new(),
            read_only: false,
        }
    }
}

pub open spec fn hostname_kw() -> Seq<char> {
    seq!['H', 'o', 's', 't', 'N', 'a', 'm', 'e']
}

pub open spec fn user_kw() -> Seq<char> {
    seq!['U', 's', 'e', 'r']
}

pub open spec fn port_kw() -> Seq<char> {
    seq!['P', 'o', 'r', 't']
}

pub open spec fn identityfile_kw() -> Seq<char> {
    seq!['I', 'd', 'e', 'n', 't', 'i', 't', 'y', 'F', 'i', 'l', 'e']
}

pub open spec fn proxyjump_kw() -> Seq<char> {
    seq!['P', 'r', 'o', 'x', 'y', 'J', 'u', 'm', 'p']
}

impl KnownDirective {
    /// Position in the fixed order HostName, User, Port, IdentityFile, ProxyJump.
    pub open spec fn rank(self) -> nat {
        match self {
            KnownDirective::HostName => 0,
            KnownDirective::User => 1,
            KnownDirective::Port => 2,
            KnownDirective::IdentityFile => 3,
            KnownDirective::ProxyJump => 4,
        }
    }

    /// The canonical spelling written into new lines.
    pub open spec fn word(self) -> Seq<char> {
        match self {
            KnownDirective::HostName => hostname_kw(),
            KnownDirective::User => user_kw(),
            KnownDirective::Port => port_kw(),
            KnownDirective::IdentityFile => identityfile_kw(),
            KnownDirective::ProxyJump => proxyjump_kw(),
        }
    }

    /// The directive a keyword names, compared without regard to ASCII case.
    pub open spec fn named(kw: Seq<char>) -> Option<KnownDirective> {
        if text::eq_ic(kw, hostname_kw()) {
            Some(KnownDirective::HostName)
        } else if text::eq_ic(kw, user_kw()) {
            Some(KnownDirective::User)
        } else if text::eq_ic(kw, port_kw()) {
            Some(KnownDirective::Port)
        } else if text::eq_ic(kw, identityfile_kw()) {
            Some(KnownDirective::IdentityFile)
        } else if text::eq_ic(kw, proxyjump_kw()) {
            Some(KnownDirective::ProxyJump)
        } else {
            None
        }
    }

    pub fn index(self) -> (i: usize)
        ensures
            i == self.rank(),
    {
        match self {
            KnownDirective::HostName => 0,
            KnownDirective::User => 1,
            KnownDirective::Port => 2,
            KnownDirective::IdentityFile => 3,
            KnownDirective::ProxyJump => 4,
        }
    }

    pub fn keyword(self) -> (s: &'static str)
        ensures
            s@ == self.word(),
    {
        match self {
            KnownDirective::HostName => {
                proof {
                    reveal_strlit("HostName");
                }
                "HostName"
            },
            KnownDirective::User => {
                proof {
                    reveal_strlit("User");
                }
                "User"
            },
            KnownDirective::Port => {
                proof {
                    reveal_strlit("Port");
                }
                "Port"
            },
            KnownDirective::IdentityFile => {
                proof {
                    reveal_strlit("IdentityFile");
                }
                "IdentityFile"
            },
            KnownDirective::ProxyJump => {
                proof {
                    reveal_strlit("ProxyJump");
                }
                "ProxyJump"
            },
        }
    }

    /// The known directive that `v[lo..hi]` names, if any.
    pub fn from_keyword_range(v: &[char], lo: usize, hi: usize) -> (d: Option<KnownDirective>)
        requires
            lo <= hi <= v@.len(),
        ensures
            d == KnownDirective::named(v@.subrange(lo as int, hi as int)),
    {
        let hostname = vec!['H', 'o', 's', 't', 'N', 'a', 'm', 'e'];
        let user = vec!['U', 's', 'e', 'r'];
        let port = vec!['P', 'o', 'r', 't'];
        let identityfile = vec!['I', 'd', 'e', 'n', 't', 'i', 't', 'y', 'F', 'i', 'l', 'e'];
        let proxyjump = vec!['P', 'r', 'o', 'x', 'y', 'J', 'u', 'm', 'p'];
        assert(hostname@ == hostname_kw());
        assert(user@ == user_kw());
        assert(port@ == port_kw());
        assert(identityfile@ == identityfile_kw());
        assert(proxyjump@ == proxyjump_kw());
        if range_eq_ic(v, lo, hi, &hostname) {
            Some(KnownDirective::HostName)
        } else if range_eq_ic(v, lo, hi, &user) {
            Some(KnownDirective::User)
        } else if range_eq_ic(v, lo, hi, &port) {
            Some(KnownDirective::Port)
        } else if range_eq_ic(v, lo, hi, &identityfile) {
            Some(KnownDirective::IdentityFile)
        } else if range_eq_ic(v, lo, hi, &proxyjump) {
            Some(KnownDirective::ProxyJump)
        } else {
            None
        }
    }

    /// The known directive that `keyword` names, if any (ASCII case-insensitive).
    pub fn from_keyword(keyword: &str) -> (d: Option<KnownDirective>)
        ensures
            d == KnownDirective::named(keyword@),
    {
        let v = chars_of(keyword);
        assert(v@.subrange(0, v@.len() as int) == v@);
        KnownDirective::from_keyword_range(&v, 0, v.len())
    }
}

impl RawLine {
    pub open spec fn text(self) -> Seq<char> {
        self.0@
    }

    /// A copy of this line.
    pub fn dup(&self) -> (r: RawLine)
        ensures
            r == *self,
    {
        RawLine(self.0.clone())
    }
}

impl BlockLine {
    /// The physical line, whatever its classification.
    pub open spec fn raw(self) -> RawLine {
        match self {
            BlockLine::Known { line, .. } => line,
            BlockLine::Other(line) => line,
        }
    }

    pub fn raw_line(&self) -> (r: &RawLine)
        ensures
            *r == self.raw(),
    {
        match self {
            BlockLine::Known { line, .. } => line,
            BlockLine::Other(line) => line,
        }
    }

    pub fn is_known(&self) -> (b: bool)
        ensures
            b == self is Known,
    {
        match self {
            BlockLine::Known { .. } => true,
            BlockLine::Other(_) => false,
        }
    }
}

/// The texts of a list of lines.
pub open spec fn line_texts(lines: Seq<RawLine>) -> Seq<Seq<char>> {
    lines.map_values(|l: RawLine| l.0@)
}

/// The texts of a block body, whatever each line's classification.
pub open spec fn body_texts(lines: Seq<BlockLine>) -> Seq<Seq<char>> {
    lines.map_values(|l: BlockLine| l.raw().0@)
}

impl ManagedBlock {
    /// Header line, then the body lines, as texts.
    pub open spec fn texts(self) -> Seq<Seq<char>> {
        seq![self.header.0@] + body_texts(self.lines@)
    }
}

impl Segment {
    pub open spec fn texts(self) -> Seq<Seq<char>> {
        match self {
            Segment::Raw(lines) => line_texts(lines@),
            Segment::Managed(block) => block.texts(),
        }
    }
}

/// All lines of a segment list, in order.
pub open spec fn segment_texts(segs: Seq<Segment>) -> Seq<Seq<char>> {
    segs.map_values(|s: Segment| s.texts()).flatten()
}

/// The document a segment list stands for.
pub open spec fn rendered(segs: Seq<Segment>) -> Seq<char> {
    segment_texts(segs).flatten()
}

pub proof fn lemma_flatten_take_succ(s: Seq<Seq<char>>, j: int)
    requires
        0 <= j < s.len(),
    ensures
        s.take(j + 1).flatten() == s.take(j).flatten() + s[j],
{
    assert(s.take(j + 1) == s.take(j).push(s[j]));
    s.take(j).lemma_flatten_push(s[j]);
}

pub proof fn lemma_segment_texts_push(segs: Seq<Segment>, s: Segment)
    ensures
        segment_texts(segs.push(s)) == segment_texts(segs) + s.texts(),
{
    broadcast use Seq::lemma_flatten_push;

    assert(segs.push(s).map_values(|s: Segment| s.texts()) == segs.map_values(
        |s: Segment| s.texts(),
    ).push(s.texts()));
}

pub proof fn lemma_segment_texts_concat(a: Seq<Segment>, b: Seq<Segment>)
    ensures
        segment_texts(a + b) == segment_texts(a) + segment_texts(b),
{
    assert((a + b).map_values(|s: Segment| s.texts()) == a.map_values(|s: Segment| s.texts())
        + b.map_values(|s: Segment| s.texts()));
    vstd::seq_lib::lemma_flatten_concat(
        a.map_values(|s: Segment| s.texts()),
        b.map_values(|s: Segment| s.texts()),
    );
}

pub proof fn lemma_rendered_concat(a: Seq<Segment>, b: Seq<Segment>)
    ensures
        rendered(a + b) == rendered(a) + rendered(b),
{
    lemma_segment_texts_concat(a, b);
    vstd::seq_lib::lemma_flatten_concat(segment_texts(a), segment_texts(b));
}


/// A directive's name in lower case.
pub open spec fn lower_name(d: KnownDirective) -> Seq<char> {
    match d {
        KnownDirective::HostName => seq!['h', 'o', 's', 't', 'n', 'a', 'm', 'e'],
        KnownDirective::User => seq!['u', 's', 'e', 'r'],
        KnownDirective::Port => seq!['p', 'o', 'r', 't'],
        KnownDirective::IdentityFile => seq!['i', 'd', 'e', 'n', 't', 'i', 't', 'y', 'f', 'i', 'l', 'e'],
        KnownDirective::ProxyJump => seq!['p', 'r', 'o', 'x', 'y', 'j', 'u', 'm', 'p'],
    }
}

/// Keywords are recognised without regard to ASCII case: every spelling of a directive's name,
/// in any mix of upper and lower case, names that directive, and no other keyword does.
pub proof fn law_keywords_ignore_case(kw: Seq<char>, d: KnownDirective)
    ensures
        text::eq_ic(kw, lower_name(d)) ==> KnownDirective::named(kw) == Some(d),
        KnownDirective::named(kw) == Some(d) ==> text::eq_ic(kw, lower_name(d)),
{
    let w = lower_name(d);
    assert(text::eq_ic(d.word(), w)) by {
        assert(d.word().len() == w.len());
        assert forall|i: int| 0 <= i < d.word().len() implies text::lower_code(#[trigger] d.word()[i]) == text::lower_code(w[i]) by {
            match d {
                KnownDirective::HostName => {
                    assert(d.word() == seq!['H', 'o', 's', 't', 'N', 'a', 'm', 'e']);
                },
                KnownDirective::User => {
                    assert(d.word() == seq!['U', 's', 'e', 'r']);
                },
                KnownDirective::Port => {
                    assert(d.word() == seq!['P', 'o', 'r', 't']);
                },
                KnownDirective::IdentityFile => {
                    assert(d.word() == seq!['I', 'd', 'e', 'n', 't', 'i', 't', 'y', 'F', 'i', 'l', 'e']);
                },
                KnownDirective::ProxyJump => {
                    assert(d.word() == seq!['P', 'r', 'o', 'x', 'y', 'J', 'u', 'm', 'p']);
                },
            }
        }
    }
    if text::eq_ic(kw, w) {
        assert(text::eq_ic(kw, d.word())) by {
            assert forall|i: int| 0 <= i < kw.len() implies text::lower_code(#[trigger] kw[i]) == text::lower_code(d.word()[i]) by {
                assert(text::lower_code(kw[i]) == text::lower_code(w[i]));
                assert(text::lower_code(d.word()[i]) == text::lower_code(w[i]));
            }
        }
        // The names differ in length or in their first letter, so at most one matches.
        if kw.len() > 0 {
            assert(text::lower_code(kw[0]) == text::lower_code(w[0]));
        }
        if kw.len() > 1 {
            assert(text::lower_code(kw[1]) == text::lower_code(w[1]));
        }
    }
    if KnownDirective::named(kw) == Some(d) {
        assert(text::eq_ic(kw, d.word()));
        assert forall|i: int| 0 <= i < kw.len() implies text::lower_code(#[trigger] kw[i]) == text::lower_code(w[i]) by {
            assert(text::lower_code(kw[i]) == text::lower_code(d.word()[i]));
            assert(text::lower_code(d.word()[i]) == text::lower_code(w[i]));
        }
    }
}

} // verus!
