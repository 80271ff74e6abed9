use sulafat_core::model::{BlockLine, KnownDirective, Segment};
use sulafat_core::parser::{
    classify_top, is_single_plain_pattern, is_wildcard_pattern, parse, render, split_raw_lines,
    strip_terminator, LineKind,
};

fn roundtrip(text: &str) {
    let segments = parse(text);
    assert_eq!(
        render(&segments),
        text,
        "round-trip mismatch for:\n{text:?}"
    );
}

#[test]
fn empty_file_roundtrips() {
    roundtrip("");
}

#[test]
fn comments_and_blank_lines_roundtrip() {
    roundtrip("# top comment\n\n# another\nHost prod\n    HostName 10.0.0.1\n\n# trailing\n");
}

#[test]
fn unknown_directives_are_preserved_verbatim() {
    roundtrip(
        "Host prod\n    HostName 10.0.0.1\n    ServerAliveInterval 30\n    # note\n    Compression yes\n",
    );
}

#[test]
fn wildcard_and_multi_pattern_hosts_stay_raw() {
    roundtrip("Host *\n    ServerAliveInterval 60\n\nHost web1 web2\n    User deploy\n");
}

#[test]
fn file_without_trailing_newline_roundtrips() {
    roundtrip("Host prod\n    HostName 10.0.0.1");
}

#[test]
fn include_directive_roundtrips() {
    roundtrip("Include conf.d/*.conf\n\nHost prod\n    HostName 10.0.0.1\n");
}

#[test]
fn match_block_stays_raw() {
    roundtrip("Match host prod\n    ForwardAgent yes\n\nHost staging\n    User dev\n");
}

#[test]
fn managed_block_classifies_known_and_extra_lines() {
    let segments = parse("Host prod\n    HostName 10.0.0.1\n    User admin\n    Compression yes\n");
    let Segment::Managed(block) = &segments[0] else {
        panic!("expected a managed block")
    };
    assert_eq!(block.alias, "prod");
    assert!(matches!(
        &block.lines[0],
        BlockLine::Known {
            directive: KnownDirective::HostName,
            ..
        }
    ));
    assert!(matches!(
        &block.lines[1],
        BlockLine::Known {
            directive: KnownDirective::User,
            ..
        }
    ));
    assert!(matches!(&block.lines[2], BlockLine::Other(_)));
}

#[test]
fn repeated_known_directive_only_first_occurrence_is_known() {
    let segments = parse("Host prod\n    Port 22\n    Port 2222\n");
    let Segment::Managed(block) = &segments[0] else {
        panic!("expected a managed block")
    };
    assert!(matches!(
        &block.lines[0],
        BlockLine::Known {
            directive: KnownDirective::Port,
            ..
        }
    ));
    assert!(matches!(&block.lines[1], BlockLine::Other(_)));
}

#[test]
fn crlf_tabs_and_mixed_case_keywords_roundtrip() {
    roundtrip("# top\r\nhOsT demo\r\n\tInclude x\r\n\tUsEr\t fallback-user  \r\n  # between\n\tPort 0022\r\n\tUser third-user");
}

#[test]
fn lone_carriage_returns_and_blank_lines_roundtrip() {
    roundtrip("\r\n\n\rHost a\r\r\n\n\n");
}

#[test]
fn split_keeps_terminators_on_each_line() {
    let lines = split_raw_lines("a\r\nb\nc");
    let texts: Vec<&str> = lines.iter().map(|l| l.0.as_str()).collect();
    assert_eq!(texts, vec!["a\r\n", "b\n", "c"]);
    assert!(split_raw_lines("").is_empty());
}

#[test]
fn strip_terminator_removes_crlf_or_lf_only() {
    assert_eq!(strip_terminator("User x\r\n"), "User x");
    assert_eq!(strip_terminator("User x\n"), "User x");
    assert_eq!(strip_terminator("User x"), "User x");
    assert_eq!(strip_terminator("User x\r"), "User x\r");
}

#[test]
fn wildcard_patterns_are_recognised() {
    assert!(is_wildcard_pattern("*"));
    assert!(is_wildcard_pattern("web?"));
    assert!(is_wildcard_pattern("!prod"));
    assert!(!is_wildcard_pattern("prod"));
    assert!(is_single_plain_pattern(&["prod".to_string()]));
    assert!(!is_single_plain_pattern(&["a".to_string(), "b".to_string()]));
    assert!(!is_single_plain_pattern(&["*".to_string()]));
    assert!(!is_single_plain_pattern(&[]));
}

#[test]
fn top_level_lines_are_classified() {
    assert!(matches!(classify_top("Host prod"), LineKind::HostHeader(_)));
    assert!(matches!(classify_top("  host\tprod  "), LineKind::HostHeader(_)));
    assert!(matches!(classify_top("Match all"), LineKind::MatchHeader));
    assert!(matches!(classify_top("# Host prod"), LineKind::Other));
    assert!(matches!(classify_top("User x"), LineKind::Other));
    if let LineKind::HostHeader(patterns) = classify_top("Host web1 web2") {
        assert_eq!(patterns, vec!["web1".to_string(), "web2".to_string()]);
    } else {
        panic!("expected a host header");
    }
}

#[test]
fn managed_block_ends_at_next_header_but_trailing_blanks_stay_raw() {
    let segments = parse("Host a\n  User x\n\n\nHost b\n  User y\n");
    assert_eq!(segments.len(), 3);
    let Segment::Managed(a) = &segments[0] else {
        panic!("expected a managed block")
    };
    assert_eq!(a.alias, "a");
    assert_eq!(a.lines.len(), 1);
    let Segment::Raw(blanks) = &segments[1] else {
        panic!("expected raw blank lines")
    };
    assert_eq!(blanks.len(), 2);
    assert!(matches!(&segments[2], Segment::Managed(b) if b.alias == "b"));
}

#[test]
fn bare_keyword_counts_as_the_first_occurrence() {
    let segments = parse("Host a\n  User\n  User bob\n");
    let Segment::Managed(block) = &segments[0] else {
        panic!("expected a managed block")
    };
    assert!(matches!(
        &block.lines[0],
        BlockLine::Known {
            directive: KnownDirective::User,
            ..
        }
    ));
    assert!(matches!(&block.lines[1], BlockLine::Other(_)));
}
