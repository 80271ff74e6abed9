use sulafat_core::form::{
    chosen_group, edited_host, edited_port, group_index, known_aliases, non_empty, sftp_uri,
    unique_alias,
};
use sulafat_core::host::{decimal_string, parse_port};
use sulafat_core::model::SshHost;

#[test]
fn form_preserves_explicit_and_inherited_ports() {
    assert_eq!(edited_port(Some(22), 22), Some(22));
    assert_eq!(edited_port(None, 22), None);
    assert_eq!(edited_port(Some(2200), 22), Some(22));
    assert_eq!(edited_port(None, 2200), Some(2200));
}

#[test]
fn unchanged_custom_port_is_kept() {
    assert_eq!(edited_port(Some(2200), 2200), Some(2200));
}

#[test]
fn empty_text_field_is_unset() {
    assert_eq!(non_empty(String::new()), None);
    assert_eq!(non_empty("x".to_string()), Some("x".to_string()));
    assert_eq!(non_empty(" ".to_string()), Some(" ".to_string()));
}

#[test]
fn sftp_uri_uses_user_host_name_and_port() {
    let mut host = SshHost::new("prod");
    assert_eq!(sftp_uri(&host), "sftp://prod/");
    host.host_name = Some("10.0.0.1".into());
    assert_eq!(sftp_uri(&host), "sftp://10.0.0.1/");
    host.user = Some("admin".into());
    host.port = Some(2222);
    assert_eq!(sftp_uri(&host), "sftp://admin@10.0.0.1:2222/");
}

#[test]
fn duplicate_alias_skips_taken_copies() {
    assert_eq!(unique_alias("prod", &[]), "prod-copia");
    let existing = vec!["prod".to_string(), "prod-copia".to_string()];
    assert_eq!(unique_alias("prod", &existing), "prod-copia-2");
    let existing = vec![
        "prod-copia-2".to_string(),
        "prod-copia".to_string(),
        "prod-copia-3".to_string(),
    ];
    assert_eq!(unique_alias("prod", &existing), "prod-copia-4");
    let existing = vec!["prod-copia-2".to_string()];
    assert_eq!(unique_alias("prod", &existing), "prod-copia");
}

#[test]
fn known_aliases_skip_read_only_hosts() {
    let mut a = SshHost::new("a");
    let mut b = SshHost::new("web*");
    b.read_only = true;
    let c = SshHost::new("c");
    a.user = Some("u".into());
    assert_eq!(known_aliases(&[a, b, c]), vec!["a".to_string(), "c".to_string()]);
    assert!(known_aliases(&[]).is_empty());
}

#[test]
fn ports_parse_as_unsigned_decimals() {
    assert_eq!(parse_port("22"), Some(22));
    assert_eq!(parse_port("0022"), Some(22));
    assert_eq!(parse_port("+22"), Some(22));
    assert_eq!(parse_port("65535"), Some(65535));
    assert_eq!(parse_port("65536"), None);
    assert_eq!(parse_port(""), None);
    assert_eq!(parse_port("2 2"), None);
    assert_eq!(parse_port("-1"), None);
    assert_eq!(decimal_string(0), "0");
    assert_eq!(decimal_string(1234567), "1234567");
}

#[test]
fn saved_form_builds_the_edited_host() {
    let mut base = SshHost::new("old");
    base.port = Some(22);
    base.read_only = false;
    let h = edited_host(
        &base,
        "new".to_string(),
        "10.0.0.5".to_string(),
        String::new(),
        22,
        "bastion".to_string(),
        String::new(),
        "Compression yes".to_string(),
    );
    assert_eq!(h.alias, "new");
    assert_eq!(h.host_name.as_deref(), Some("10.0.0.5"));
    assert_eq!(h.user, None);
    assert_eq!(h.port, Some(22));
    assert_eq!(h.proxy_jump.as_deref(), Some("bastion"));
    assert_eq!(h.identity_file, None);
    assert_eq!(h.extra, "Compression yes");
    let inherited = SshHost::new("x");
    let h = edited_host(&inherited, "x".into(), String::new(), String::new(), 22, String::new(), String::new(), String::new());
    assert_eq!(h.port, None);
}

#[test]
fn group_picker_starts_at_the_hosts_group() {
    let options = vec!["None".to_string(), "prod".to_string(), "dev".to_string(), "New group…".to_string()];
    assert_eq!(group_index(&options, Some("dev")), 2);
    assert_eq!(group_index(&options, Some("missing")), 0);
    assert_eq!(group_index(&options, None), 0);
}

#[test]
fn group_choice_maps_first_and_last_options() {
    let options = vec!["None".to_string(), "prod".to_string(), "New group…".to_string()];
    assert_eq!(chosen_group(0, 2, "x".into(), &options), None);
    assert_eq!(chosen_group(1, 2, "x".into(), &options), Some("prod".to_string()));
    assert_eq!(chosen_group(2, 2, "staging".into(), &options), Some("staging".to_string()));
    assert_eq!(chosen_group(2, 2, String::new(), &options), None);
    assert_eq!(chosen_group(7, 2, "x".into(), &options), None);
}
