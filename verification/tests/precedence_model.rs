//! The precedence scenarios, checked on the document model: the text written after an edit,
//! and a second save of the host read back from the same model.
use sulafat_core::host::host_from_managed;
use sulafat_core::model::{Segment, SshHost};
use sulafat_core::parser::{parse, render};
use sulafat_core::writer::{find_managed_index, upsert};

fn read_host(segments: &[Segment], alias: &str) -> SshHost {
    let idx = find_managed_index(segments, alias).expect("managed block");
    match &segments[idx] {
        Segment::Managed(block) => host_from_managed(block),
        Segment::Raw(_) => panic!("expected a managed block"),
    }
}

fn exercise(body: &str, edit: impl FnOnce(&mut SshHost), expected: &str) {
    let mut segments = parse(body);
    let mut host = read_host(&segments, "demo");
    edit(&mut host);
    upsert(&mut segments, &host);
    assert_eq!(render(&segments), expected);
    let host = read_host(&segments, "demo");
    upsert(&mut segments, &host);
    assert_eq!(render(&segments), expected);
}

#[test]
fn include_before_fields_keeps_effective_user_and_identity_order() {
    let text = "Host demo\n  Include @INCLUDE@\n  # keep here\n  User fallback-user\n  IdentityFile /tmp/second-key\n  Port 22\n  User third-user\n";
    exercise(text, |_| {}, text);
}

#[test]
fn mixed_terminators_tabs_repeated_fields_and_no_final_newline_are_unchanged() {
    let text = "# top\r\nhOsT demo\r\n\tInclude @INCLUDE@\r\n\tUsEr\t fallback-user  \r\n  # between\n\tPort 0022\r\n\tIdentityFile /tmp/second-key\r\n\tUser third-user";
    exercise(text, |_| {}, text);
}

#[test]
fn include_after_first_user_and_before_repeated_user_stays_in_place() {
    let text = "Host demo\n  User explicit-user\n  Include @INCLUDE@\n  User fallback-user\n";
    exercise(text, |_| {}, text);
}

#[test]
fn changing_a_fallback_field_does_not_move_include_or_match() {
    let text = "Host demo\n  Include @INCLUDE@\n  User fallback-user\nMatch host demo\n  Compression yes\nHost other\n  User other-user\n";
    exercise(
        text,
        |host| host.user = Some("new-fallback".into()),
        &text.replace("User fallback-user", "User new-fallback"),
    );
}

#[test]
fn changing_an_advanced_comment_does_not_move_include() {
    let text = "Host demo\n  # old note\n  Include @INCLUDE@\n  User fallback-user\n  # trailing\n";
    exercise(
        text,
        |host| host.extra = host.extra.replace("old note", "new note"),
        &text.replace("old note", "new note"),
    );
}

#[test]
fn independent_advanced_insertions_and_deletions_preserve_include_anchors() {
    let text = "Host demo\n  # remove\n  Include @INCLUDE@\n  User fallback-user\n  # middle\n  IdentityFile /tmp/second-key\n  # last\n";
    let expected = text
        .replace("  # remove\n", "")
        .replace("  # middle", "  # inserted\n  # middle")
        .replace("  # last", "  # last\n  # appended");
    exercise(
        text,
        |host| {
            host.extra = host
                .extra
                .replace("  # remove\n", "")
                .replace("  # middle", "  # inserted\n  # middle")
                .replace("  # last", "  # last\n  # appended")
        },
        &expected,
    );
}

#[test]
fn adding_a_field_to_an_include_only_block_keeps_include_first() {
    let text = "Host demo\r\n  Include @INCLUDE@";
    exercise(
        text,
        |host| host.user = Some("fallback-user".into()),
        "Host demo\r\n  Include @INCLUDE@\r\n    User fallback-user\r\n",
    );
}

#[test]
fn replacing_advanced_text_keeps_mixed_terminators_and_unterminated_last_line() {
    let text = "Host demo\r\n  Include @INCLUDE@\r\n  User fallback-user\n  # old";
    exercise(
        text,
        |host| host.extra = host.extra.replace("# old", "# new"),
        &text.replace("# old", "# new"),
    );
}

#[test]
fn deleting_advanced_comments_preserves_repeated_directives_in_their_slots() {
    let text = "Host demo\n  # remove\n  Include @INCLUDE@\n  User fallback-user\n  Include @INCLUDE@\n  IdentityFile /tmp/second-key\n  # keep\n";
    exercise(
        text,
        |host| host.extra = host.extra.replace("  # remove\n", ""),
        &text.replace("  # remove\n", ""),
    );
}

#[test]
fn explicit_edits_and_removal_keep_later_fields_and_model_consistent() {
    let source = "Host demo\r\n  # before\r\n  User first-user\r\n  # middle\n  Port 22\r\n  User second-user\r\n  Port 2200";
    let mut segments = parse(source);
    let mut host = read_host(&segments, "demo");
    host.user = None;
    host.port = Some(2222);
    upsert(&mut segments, &host);
    let expected = source
        .replace("  User first-user\r\n", "")
        .replace("  Port 22\r\n", "  Port 2222\r\n");
    assert_eq!(render(&segments), expected);
    let mut host = read_host(&segments, "demo");
    assert_eq!(host.user.as_deref(), Some("second-user"));
    host.user = Some("third-user".into());
    upsert(&mut segments, &host);
    assert_eq!(render(&segments), expected.replace("second-user", "third-user"));
}

#[test]
fn advanced_known_directive_is_visible_on_subsequent_edit() {
    let mut segments = parse("Host demo\n  # before\n  Port 22\n");
    let mut host = read_host(&segments, "demo");
    host.extra = "  User new-user".into();
    upsert(&mut segments, &host);
    let mut host = read_host(&segments, "demo");
    assert_eq!(host.user.as_deref(), Some("new-user"));
    host.user = Some("edited-user".into());
    upsert(&mut segments, &host);
    assert_eq!(render(&segments), "Host demo\n  User edited-user\n  Port 22\n");
}
