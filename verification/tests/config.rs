use needre::{parse, Config};

#[test]
fn extracts_monitored_directories() {
    let text = "\
# needre configuration
[processmonitor]
directory /tmp
  directory   /dev/shm   # in-memory tmpfs

directory /var/tmp
";
    let cfg = Config::from_sections(&parse(text));
    assert_eq!(cfg.monitor_dirs, ["/tmp", "/dev/shm", "/var/tmp"]);
}

#[test]
fn ignores_unknown_sections_and_keys() {
    let text = "\
[processmonitor]
directory /tmp
loglevel debug

[network]
port 8080
";
    let cfg = Config::from_sections(&parse(text));
    assert_eq!(cfg.monitor_dirs, ["/tmp"]);
}

#[test]
fn parameters_before_a_category_are_skipped() {
    let text = "\
directory /orphan
[processmonitor]
directory /tmp
";
    let cfg = Config::from_sections(&parse(text));
    assert_eq!(cfg.monitor_dirs, ["/tmp"]);
}

#[test]
fn matches_first_prefix() {
    let cfg = Config {
        monitor_dirs: vec!["/tmp".to_string(), "/dev/shm".to_string()],
    };
    assert_eq!(cfg.matching_prefix("/tmp/evil"), Some("/tmp"));
    assert_eq!(cfg.matching_prefix("/dev/shm/x"), Some("/dev/shm"));
    assert_eq!(cfg.matching_prefix("/usr/bin/ls"), None);
}

fn dirs_of(text: &str) -> Vec<String> {
    Config::from_sections(&parse(text)).monitor_dirs
}

#[test]
fn comment_after_hash_is_ignored() {
    assert_eq!(dirs_of("[processmonitor]\ndirectory /a#/b\n# directory /c\n"), ["/a"]);
    assert_eq!(
        dirs_of("[processmonitor]\ndirectory /a#/b\n"),
        dirs_of("[processmonitor]\ndirectory /a\n")
    );
}

#[test]
fn blank_lines_change_nothing() {
    assert_eq!(
        dirs_of("[processmonitor]\n\n   \n\t\ndirectory /x\n\n"),
        dirs_of("[processmonitor]\ndirectory /x\n")
    );
}

#[test]
fn reopened_category_keeps_and_extends_parameters() {
    let text = "[processmonitor]\ndirectory /a\n[network]\nport 1\n[processmonitor]\ndirectory /b\n";
    assert_eq!(dirs_of(text), ["/a", "/b"]);
    let sections = parse(text);
    assert_eq!(sections.entries.len(), 2);
    assert_eq!(sections.entries[0].0, "processmonitor");
    assert_eq!(sections.entries[1].0, "network");
}

#[test]
fn header_names_and_values_are_trimmed() {
    let sections = parse("[  processmonitor \t]\n  directory \t  /srv/x   \n");
    let params = sections.get("processmonitor").expect("category");
    assert_eq!(params.len(), 1);
    assert_eq!(params[0].0, "directory");
    assert_eq!(params[0].1, "/srv/x");
}

#[test]
fn value_keeps_inner_white_space() {
    let sections = parse("[s]\nkey a  b c\n");
    let params = sections.get("s").expect("category");
    assert_eq!(params[0].0, "key");
    assert_eq!(params[0].1, "a  b c");
}

#[test]
fn key_without_value_has_empty_value() {
    let sections = parse("[processmonitor]\ndirectory\ndirectory   \n");
    let params = sections.get("processmonitor").expect("category");
    assert_eq!(params.len(), 2);
    assert_eq!(params[0].1, "");
    assert_eq!(params[1].1, "");
    assert!(dirs_of("[processmonitor]\ndirectory\n").is_empty());
}

#[test]
fn unicode_white_space_separates_and_trims() {
    let sections = parse("[s]\n\u{3000}key\u{2003}value\u{a0}\n");
    let params = sections.get("s").expect("category");
    assert_eq!(params[0].0, "key");
    assert_eq!(params[0].1, "value");
}

#[test]
fn crlf_line_endings() {
    assert_eq!(dirs_of("[processmonitor]\r\ndirectory /a\r\ndirectory /b\r\n"), ["/a", "/b"]);
}

#[test]
fn bracket_alone_is_not_a_header() {
    let sections = parse("[\n]\n[]\nx y\n");
    assert_eq!(sections.entries.len(), 1);
    assert_eq!(sections.entries[0].0, "");
    assert_eq!(sections.entries[0].1.len(), 1);
    assert_eq!(sections.entries[0].1[0].0, "x");
}

#[test]
fn missing_category_reads_as_none() {
    let sections = parse("[network]\nport 8080\n");
    assert!(sections.get("processmonitor").is_none());
    assert!(sections.get("network").is_some());
    assert!(dirs_of("").is_empty());
}

#[test]
fn from_text_falls_back_to_tmp() {
    let (empty, fell_back) = Config::from_text("");
    assert_eq!(empty.monitor_dirs, ["/tmp"]);
    assert!(fell_back);
    let (other, fell_back) = Config::from_text("[network]\nport 1\n");
    assert_eq!(other.monitor_dirs, ["/tmp"]);
    assert!(fell_back);
    let (set, fell_back) = Config::from_text("[processmonitor]\ndirectory /dev/shm\n");
    assert_eq!(set.monitor_dirs, ["/dev/shm"]);
    assert!(!fell_back);
    assert_eq!(Config::with_default_dir().monitor_dirs, ["/tmp"]);
}

#[test]
fn config_path_prefers_environment() {
    assert_eq!(needre::config_path(None), "/etc/needre/needre.conf");
    assert_eq!(needre::config_path(Some("/x/y.conf".to_string())), "/x/y.conf");
}

#[test]
fn matching_prefix_returns_first_match_in_order() {
    let cfg = Config { monitor_dirs: vec!["/tmp/a".to_string(), "/tmp".to_string()] };
    assert_eq!(cfg.matching_prefix("/tmp/a/b"), Some("/tmp/a"));
    assert_eq!(cfg.matching_prefix("/tmp/b"), Some("/tmp"));
    assert_eq!(cfg.matching_prefix("/tm"), None);
    let plain_prefix = Config { monitor_dirs: vec!["/tmp".to_string()] };
    assert_eq!(plain_prefix.matching_prefix("/tmpfoo/x"), Some("/tmp"));
}

#[test]
fn texts_differing_in_line_edges_comments_and_blank_lines_parse_alike() {
    let plain = "[processmonitor]\ndirectory /a\ndirectory /b\n[network]\nport 1";
    let noisy = "  [processmonitor]\t# header\n\n\tdirectory /a   \n   # only a comment\ndirectory /b#x\n[network]  \nport 1\n   ";
    assert_eq!(dirs_of(plain), dirs_of(noisy));
    let (p, n) = (parse(plain), parse(noisy));
    assert_eq!(p.entries, n.entries);
    assert_eq!(dirs_of(noisy), ["/a", "/b"]);
}
