use sulafat_core::host::{find_known_index, host_from_managed};
use sulafat_core::model::{BlockLine, KnownDirective, ManagedBlock, RawLine, Segment, SshHost};
use sulafat_core::parser::{parse, render};
use sulafat_core::writer::{
    anchors, apply_known_field, build_known_line, build_new_block, ensure_appendable,
    find_managed_index, last_known_index, lcs_lengths, line_ending, port_value, push_raw_line,
    remove, replace_extra_lines, replace_line_value, rewrite_block, set_header_alias,
    split_keyword_and_terminator, upsert, upsert_renaming,
};

fn parsed(text: &str) -> Vec<Segment> {
    parse(text)
}

fn strings(lines: &[&str]) -> Vec<String> {
    lines.iter().map(|s| s.to_string()).collect()
}

fn managed(segments: &[Segment], idx: usize) -> &ManagedBlock {
    match &segments[idx] {
        Segment::Managed(b) => b,
        Segment::Raw(_) => panic!("expected a managed block"),
    }
}

#[test]
fn editing_a_field_preserves_unrelated_lines() {
    let mut segments = parsed(
        "# comment\nHost prod\n    HostName 10.0.0.1\n    Compression yes\n\nHost other\n    User x\n",
    );
    let host = SshHost {
        alias: "prod".into(),
        host_name: Some("10.0.0.2".into()),
        extra: "    Compression yes".into(),
        ..Default::default()
    };
    upsert(&mut segments, &host);
    let out = render(&segments);
    assert_eq!(
        out,
        "# comment\nHost prod\n    HostName 10.0.0.2\n    Compression yes\n\nHost other\n    User x\n"
    );
}

#[test]
fn clearing_a_field_removes_its_line() {
    let mut segments = parsed("Host prod\n    HostName 10.0.0.1\n    User admin\n");
    let host = SshHost {
        alias: "prod".into(),
        host_name: Some("10.0.0.1".into()),
        user: None,
        ..Default::default()
    };
    upsert(&mut segments, &host);
    assert_eq!(render(&segments), "Host prod\n    HostName 10.0.0.1\n");
}

#[test]
fn adding_a_new_field_inserts_after_known_lines() {
    let mut segments = parsed("Host prod\n    HostName 10.0.0.1\n    # note\n");
    let host = SshHost {
        alias: "prod".into(),
        host_name: Some("10.0.0.1".into()),
        user: Some("admin".into()),
        extra: "    # note".into(),
        ..Default::default()
    };
    upsert(&mut segments, &host);
    assert_eq!(
        render(&segments),
        "Host prod\n    HostName 10.0.0.1\n    User admin\n    # note\n"
    );
}

#[test]
fn advanced_options_text_replaces_extra_lines_only() {
    let mut segments =
        parsed("Host prod\n    HostName 10.0.0.1\n    Compression yes\n    # old note\n");
    let host = SshHost {
        alias: "prod".into(),
        host_name: Some("10.0.0.1".into()),
        extra: "ServerAliveInterval 30\n# new note".into(),
        ..Default::default()
    };
    upsert(&mut segments, &host);
    assert_eq!(
        render(&segments),
        "Host prod\n    HostName 10.0.0.1\nServerAliveInterval 30\n# new note\n"
    );
}

#[test]
fn new_host_is_appended_with_separator() {
    let mut segments = parsed("Host prod\n    HostName 10.0.0.1\n");
    let host = SshHost {
        alias: "staging".into(),
        host_name: Some("10.0.0.2".into()),
        ..Default::default()
    };
    upsert(&mut segments, &host);
    assert_eq!(
        render(&segments),
        "Host prod\n    HostName 10.0.0.1\n\nHost staging\n    HostName 10.0.0.2\n"
    );
}

#[test]
fn new_host_on_file_missing_trailing_newline_still_terminates_previous_block() {
    let mut segments = parsed("Host prod\n    HostName 10.0.0.1");
    let host = SshHost {
        alias: "staging".into(),
        host_name: Some("10.0.0.2".into()),
        ..Default::default()
    };
    upsert(&mut segments, &host);
    assert_eq!(
        render(&segments),
        "Host prod\n    HostName 10.0.0.1\n\nHost staging\n    HostName 10.0.0.2\n"
    );
}

#[test]
fn new_host_on_empty_file_has_no_leading_separator() {
    let mut segments = parsed("");
    let host = SshHost {
        alias: "staging".into(),
        host_name: Some("10.0.0.2".into()),
        ..Default::default()
    };
    upsert(&mut segments, &host);
    assert_eq!(render(&segments), "Host staging\n    HostName 10.0.0.2\n");
}

#[test]
fn removing_a_host_deletes_its_whole_block() {
    let mut segments = parsed("Host prod\n    HostName 10.0.0.1\n\nHost staging\n    User dev\n");
    assert!(remove(&mut segments, "prod"));
    assert_eq!(render(&segments), "\nHost staging\n    User dev\n");
}

#[test]
fn removing_an_unknown_alias_is_a_no_op_and_reports_false() {
    let mut segments = parsed("Host prod\n    HostName 10.0.0.1\n");
    assert!(!remove(&mut segments, "ghost"));
    assert_eq!(render(&segments), "Host prod\n    HostName 10.0.0.1\n");
}

#[test]
fn renaming_alias_updates_header_and_keeps_matching_by_previous_alias() {
    let mut segments = parsed("Host prod\n    HostName 10.0.0.1\n");
    let host = SshHost {
        alias: "prod-db".into(),
        host_name: Some("10.0.0.1".into()),
        ..Default::default()
    };
    upsert_renaming(&mut segments, Some("prod"), &host);
    assert_eq!(render(&segments), "Host prod-db\n    HostName 10.0.0.1\n");
}

#[test]
fn renaming_with_unknown_previous_alias_appends_a_new_block() {
    let mut segments = parsed("Host prod\n    HostName 10.0.0.1\n");
    let host = SshHost {
        alias: "prod-db".into(),
        host_name: Some("10.0.0.9".into()),
        ..Default::default()
    };
    upsert_renaming(&mut segments, Some("missing"), &host);
    assert_eq!(
        render(&segments),
        "Host prod\n    HostName 10.0.0.1\n\nHost prod-db\n    HostName 10.0.0.9\n"
    );
    let mut again = parsed("Host prod\n    HostName 10.0.0.1\n");
    upsert_renaming(&mut again, None, &host);
    assert_eq!(render(&again), render(&segments));
}

#[test]
fn lcs_row_counts_common_lines() {
    let a = strings(&["a", "b", "c", "d"]);
    let b = strings(&["b", "x", "d"]);
    assert_eq!(lcs_lengths(&a, &b, false), vec![0, 1, 1, 2]);
    assert_eq!(lcs_lengths(&a, &b, true), vec![0, 1, 1, 2]);
    assert_eq!(lcs_lengths(&[], &b, false), vec![0, 0, 0, 0]);
    let c = strings(&["x", "a"]);
    assert_eq!(lcs_lengths(&strings(&["a", "x"]), &c, false), vec![0, 1, 1]);
}

#[test]
fn anchors_pair_up_a_longest_common_subsequence() {
    let a = strings(&["keep1", "old", "keep2", "gone", "keep3"]);
    let b = strings(&["keep1", "new", "keep2", "keep3", "added"]);
    let mut out = vec![(9, 9)];
    anchors(&a, &b, (0, 0), &mut out);
    assert_eq!(out, vec![(9, 9), (0, 0), (2, 2), (4, 3)]);
    let mut shifted = Vec::new();
    anchors(&strings(&["x"]), &strings(&["y", "x"]), (5, 7), &mut shifted);
    assert_eq!(shifted, vec![(5, 8)]);
    let mut none = Vec::new();
    anchors(&strings(&["p", "q"]), &strings(&["r"]), (0, 0), &mut none);
    assert!(none.is_empty());
}

#[test]
fn keyword_and_terminator_are_split_out() {
    let (kw, term) = split_keyword_and_terminator("\tUsEr\t bob  \r\n");
    assert_eq!(kw, "\tUsEr");
    assert_eq!(term, "\r\n");
    let (kw, term) = split_keyword_and_terminator("Port");
    assert_eq!(kw, "Port");
    assert_eq!(term, "");
}

#[test]
fn replacing_a_value_keeps_indent_keyword_and_terminator() {
    let mut line = RawLine("  hostname old # x\r\n".to_string());
    replace_line_value(&mut line, "new");
    assert_eq!(line.0, "  hostname new\r\n");
    let mut header = RawLine("HOST prod".to_string());
    set_header_alias(&mut header, "prod-db");
    assert_eq!(header.0, "HOST prod-db");
}

#[test]
fn new_known_lines_are_indented_and_terminated() {
    assert_eq!(build_known_line(KnownDirective::ProxyJump, "bastion").0, "    ProxyJump bastion\n");
    let block = ManagedBlock {
        alias: "a".into(),
        header: RawLine("Host a\r\n".into()),
        lines: vec![],
    };
    assert_eq!(line_ending(&block), "\r\n");
    let block = ManagedBlock {
        alias: "a".into(),
        header: RawLine("Host a".into()),
        lines: vec![],
    };
    assert_eq!(line_ending(&block), "\n");
}

#[test]
fn applying_fields_sets_replaces_and_clears() {
    let segments = parsed("Host a\r\n  # c\r\n  User x\r\n  # d\r\n");
    let mut block = managed(&segments, 0).clone();
    assert_eq!(last_known_index(&block), Some(1));
    apply_known_field(&mut block, KnownDirective::Port, Some("2200"));
    assert_eq!(block.lines[2].clone(), BlockLine::Known {
        directive: KnownDirective::Port,
        line: RawLine("    Port 2200\r\n".into())
    });
    apply_known_field(&mut block, KnownDirective::User, Some("y"));
    assert_eq!(find_known_index(&block, KnownDirective::User), Some(1));
    assert_eq!(
        block.lines[1].clone(),
        BlockLine::Known {
            directive: KnownDirective::User,
            line: RawLine("  User y\r\n".into())
        }
    );
    apply_known_field(&mut block, KnownDirective::User, None);
    assert_eq!(find_known_index(&block, KnownDirective::User), None);
    assert_eq!(block.lines.len(), 3);
    apply_known_field(&mut block, KnownDirective::HostName, None);
    assert_eq!(block.lines.len(), 3);
}

#[test]
fn port_value_is_decimal() {
    let mut host = SshHost::new("a");
    assert_eq!(port_value(&host), None);
    host.port = Some(65535);
    assert_eq!(port_value(&host), Some("65535".to_string()));
    host.port = Some(0);
    assert_eq!(port_value(&host), Some("0".to_string()));
}

#[test]
fn new_block_lists_fields_in_form_order_then_extra() {
    let host = SshHost {
        alias: "n".into(),
        proxy_jump: Some("j".into()),
        port: Some(22),
        host_name: Some("h".into()),
        extra: "A b\n".into(),
        ..Default::default()
    };
    let block = build_new_block(&host);
    assert_eq!(block.header.0, "Host n\n");
    let texts: Vec<String> = block.lines.iter().map(|l| match l {
        BlockLine::Known { line, .. } | BlockLine::Other(line) => line.0.clone(),
    }).collect();
    assert_eq!(texts, strings(&["    HostName h\n", "    Port 22\n", "    ProxyJump j\n", "A b\n", "\n"]));
}

#[test]
fn appendable_document_ends_in_a_blank_line() {
    let mut segments = parsed("Host a\n  User x");
    ensure_appendable(&mut segments);
    assert_eq!(render(&segments), "Host a\n  User x\n\n");
    let mut empty: Vec<Segment> = Vec::new();
    ensure_appendable(&mut empty);
    assert!(empty.is_empty());
    let mut raw = parsed("# c\n");
    push_raw_line(&mut raw, "# d\n");
    assert_eq!(raw.len(), 1);
    assert_eq!(render(&raw), "# c\n# d\n");
}

#[test]
fn rewriting_an_unterminated_header_terminates_it() {
    let segments = parsed("Host demo\r\n  Include x");
    let mut block = managed(&segments, 0).clone();
    let mut host = host_from_managed(&block);
    host.user = Some("fallback-user".into());
    rewrite_block(&mut block, &host);
    let out = render(&[Segment::Managed(block)]);
    assert_eq!(out, "Host demo\r\n  Include x\r\n    User fallback-user\r\n");
}

#[test]
fn advanced_lines_keep_slots_around_known_fields() {
    let text = "Host demo\n  # remove\n  Include x\n  User fallback-user\n  # middle\n  IdentityFile /k\n  # last\n";
    let segments = parsed(text);
    let mut block = managed(&segments, 0).clone();
    let host = host_from_managed(&block);
    assert_eq!(host.extra, "  # remove\n  Include x\n  # middle\n  # last");
    replace_extra_lines(&mut block, "  Include x\n  # inserted\n  # middle\n  # last\n  # appended");
    let out = render(&[Segment::Managed(block)]);
    assert_eq!(
        out,
        "Host demo\n  Include x\n  User fallback-user\n  # inserted\n  # middle\n  IdentityFile /k\n  # last\n  # appended\n"
    );
}

#[test]
fn managed_blocks_are_found_by_exact_alias() {
    let segments = parsed("Host *\n  User x\nHost prod\n  Port 1\nHost Prod\n  Port 2\n");
    assert_eq!(find_managed_index(&segments, "prod"), Some(1));
    assert_eq!(find_managed_index(&segments, "Prod"), Some(2));
    assert_eq!(find_managed_index(&segments, "*"), None);
    assert_eq!(find_managed_index(&segments, "pro"), None);
    let empty = ManagedBlock {
        alias: "a".into(),
        header: RawLine("Host a\n".into()),
        lines: vec![BlockLine::Other(RawLine("# c\n".into()))],
    };
    assert_eq!(last_known_index(&empty), None);
}

#[test]
fn saved_host_reads_back_from_its_block() {
    let mut segments = parsed("Host a\r\n  User x\r\n  # c\r\n  Port 22\r\nHost b\n  User y\n");
    let mut host = host_from_managed(managed(&segments, 0));
    host.user = Some("z".into());
    host.port = None;
    host.host_name = Some("h.example".into());
    host.proxy_jump = Some("jump".into());
    host.extra = "  # c\n  Compression yes".into();
    upsert(&mut segments, &host);
    let back = host_from_managed(managed(&segments, 0));
    assert_eq!(back, host);
    let fresh = SshHost {
        alias: "c".into(),
        identity_file: Some("~/.ssh/id".into()),
        port: Some(2022),
        extra: "# one\n\n# three".into(),
        ..Default::default()
    };
    upsert(&mut segments, &fresh);
    let idx = find_managed_index(&segments, "c").unwrap();
    assert_eq!(host_from_managed(managed(&segments, idx)), fresh);
    assert_eq!(host_from_managed(managed(&segments, 1)).user.as_deref(), Some("y"));
}

#[test]
fn anchors_match_as_many_lines_as_the_lcs_row_counts() {
    let cases: Vec<(Vec<&str>, Vec<&str>)> = vec![
        (vec!["a", "b", "c", "a", "b", "b", "a"], vec!["c", "b", "a", "b", "a", "c"]),
        (vec!["x", "y", "z"], vec!["z", "y", "x"]),
        (vec!["p", "q", "p", "q"], vec!["q", "p", "q", "p", "q"]),
        (vec!["same", "same"], vec!["same", "same", "same"]),
    ];
    for (a, b) in cases {
        let a = strings(&a);
        let b = strings(&b);
        let row = lcs_lengths(&a, &b, false);
        let mut out = Vec::new();
        anchors(&a, &b, (0, 0), &mut out);
        assert_eq!(out.len(), row[b.len()]);
        for w in out.windows(2) {
            assert!(w[0].0 < w[1].0 && w[0].1 < w[1].1);
        }
        for (i, j) in &out {
            assert_eq!(a[*i], b[*j]);
        }
    }
}

#[test]
fn kept_advanced_lines_keep_their_terminators() {
    let segments = parsed("Host demo\n  # one\r\n  # two\n  # three");
    let mut block = managed(&segments, 0).clone();
    replace_extra_lines(&mut block, "  # one\n  # new\n  # three");
    let out = render(&[Segment::Managed(block)]);
    assert_eq!(out, "Host demo\n  # one\r\n  # new\n  # three");
}

#[test]
fn unchanged_field_keeps_its_exact_bytes() {
    let mut segments = parsed("Host a\n\thOsTnAmE   h.example  \n  User x\n");
    let mut host = host_from_managed(managed(&segments, 0));
    assert_eq!(host.host_name.as_deref(), Some("h.example"));
    host.user = Some("y".into());
    host.port = Some(2200);
    upsert(&mut segments, &host);
    assert_eq!(
        render(&segments),
        "Host a\n\thOsTnAmE   h.example  \n  User y\n    Port 2200\n"
    );
}

#[test]
fn swapped_advanced_lines_stay_before_the_known_field() {
    let segments = parsed("Host demo\n  # A\n  User u\n  # B\n");
    let mut block = managed(&segments, 0).clone();
    replace_extra_lines(&mut block, "  # B\n  # A");
    let out = render(&[Segment::Managed(block)]);
    assert_eq!(out, "Host demo\n  # B\n  # A\n  User u\n");
}

#[test]
fn one_edited_advanced_line_keeps_its_slot_and_terminator() {
    let segments = parsed("Host demo\n  # a\r\n  User u\n  # b\n  Port 22\n  # b\n");
    let before = managed(&segments, 0).clone();
    let mut block = before.clone();
    replace_extra_lines(&mut block, "  # b\n  # b\n  # b");
    let out = render(&[Segment::Managed(block.clone())]);
    assert_eq!(out, "Host demo\n  # b\r\n  User u\n  # b\n  Port 22\n  # b\n");
    assert_eq!(block.lines.len(), before.lines.len());
    for k in 1..before.lines.len() {
        assert_eq!(block.lines[k], before.lines[k]);
    }
    assert_eq!(block.lines[0], BlockLine::Other(RawLine("  # b\r\n".into())));
}

#[test]
fn one_edited_advanced_line_in_the_middle_stays_between_its_fields() {
    let segments = parsed("Host demo\n  # one\n  User u\n  # two\n  Port 22\n  # three");
    let mut block = managed(&segments, 0).clone();
    replace_extra_lines(&mut block, "  # one\n  # 2\n  # three");
    let out = render(&[Segment::Managed(block)]);
    assert_eq!(out, "Host demo\n  # one\n  User u\n  # 2\n  Port 22\n  # three");
}

#[test]
fn appendable_document_ends_in_a_blank_raw_line() {
    let mut segments = parsed("Host a\n  User x");
    ensure_appendable(&mut segments);
    match segments.last() {
        Some(Segment::Raw(lines)) => assert_eq!(lines.last(), Some(&RawLine("\n".into()))),
        _ => panic!("expected a raw run at the end"),
    }
    let mut raw = parsed("# c");
    ensure_appendable(&mut raw);
    assert_eq!(raw.len(), 1);
    assert_eq!(render(&raw), "# c\n\n");
}

#[test]
fn new_block_follows_the_untouched_document_and_a_blank_run() {
    let mut segments = parsed("Host a\n  User x\n");
    let before = segments.clone();
    let host = SshHost { alias: "b".into(), user: Some("y".into()), ..Default::default() };
    upsert(&mut segments, &host);
    assert_eq!(segments.len(), 3);
    assert_eq!(segments[0], before[0]);
    assert_eq!(segments[1], Segment::Raw(vec![RawLine("\n".into())]));
    assert_eq!(render(&segments), "Host a\n  User x\n\nHost b\n    User y\n");
}

#[test]
fn saving_the_read_host_twice_keeps_the_document() {
    let text = "Host a\r\n\tPort 0022\n  User x\r\n  User y\n  Include more\n  Match all\nHost b\n  Port 22";
    let mut segments = parsed(text);
    let first = host_from_managed(managed(&segments, 0));
    upsert(&mut segments, &first);
    assert_eq!(render(&segments), text);
    let second = host_from_managed(managed(&segments, 0));
    assert_eq!(second, first);
    upsert(&mut segments, &second);
    assert_eq!(render(&segments), text);
    let idx = find_managed_index(&segments, "b").unwrap();
    let other = host_from_managed(managed(&segments, idx));
    upsert(&mut segments, &other);
    let again = host_from_managed(managed(&segments, idx));
    upsert(&mut segments, &again);
    assert_eq!(render(&segments), text);
}

#[test]
fn saving_one_changed_advanced_line_rewrites_that_line_alone() {
    let text = "Host demo\n  # a\r\n  User u\n  # b\r\n  Port 0022\n  # c";
    let mut segments = parsed(text);
    let mut host = host_from_managed(managed(&segments, 0));
    assert_eq!(host.extra, "  # a\n  # b\n  # c");
    host.extra = "  # a\n  # B\n  # c".into();
    upsert(&mut segments, &host);
    assert_eq!(render(&segments), "Host demo\n  # a\r\n  User u\n  # B\r\n  Port 0022\n  # c");
}

#[test]
fn appending_terminates_the_last_line_in_place() {
    let mut segments = parsed("Host a\n  User x");
    ensure_appendable(&mut segments);
    assert_eq!(segments.len(), 2);
    assert_eq!(managed(&segments, 0).lines.last(), Some(&BlockLine::Known {
        directive: KnownDirective::User,
        line: RawLine("  User x\n".into()),
    }));
    assert_eq!(segments[1], Segment::Raw(vec![RawLine("\n".into())]));
}

#[test]
fn editing_a_block_after_appending_adds_no_blank_line() {
    let mut segments = parsed("Host a\n  User x");
    let fresh = SshHost { alias: "b".into(), user: Some("y".into()), ..Default::default() };
    upsert(&mut segments, &fresh);
    let mut host = host_from_managed(managed(&segments, 0));
    host.port = Some(2200);
    upsert(&mut segments, &host);
    assert_eq!(render(&segments), "Host a\n  User x\n    Port 2200\n\nHost b\n    User y\n");
}
