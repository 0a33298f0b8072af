use sshc::sshc::{Parameter, Sshc};

fn to_lines(text: &str) -> Vec<String> {
    text.lines().map(|l| l.to_string()).collect()
}

fn param(k: &str, v: &str) -> Parameter {
    (k.to_string(), Some(v.to_string()))
}

const SAMPLE: &str = "# comment\n\nHost alpha\n  HostName a.com\n  Port 22\n\nHost beta\n  HostName b.com\n\n";

#[test]
fn round_trip_preserves_conforming_lines() {
    let doc = Sshc::from_lines(to_lines(SAMPLE));
    let rendered = doc.write();
    assert_eq!(rendered, SAMPLE);
}

#[test]
fn render_is_idempotent_on_own_output() {
    let messy = "# top\njunk top level line\n\nHost a\n  HostName a.com\n  One two three\nHost b\n  HostName b.com\n";
    let once = Sshc::from_lines(to_lines(messy)).write();
    let twice = Sshc::from_lines(to_lines(&once)).write();
    assert_eq!(twice, once);
}

#[test]
fn parse_drops_nonconforming_lines() {
    let messy = "junk\n# kept\nHost a\n  Key one two\n  HostName a.com\n";
    let doc = Sshc::from_lines(to_lines(messy));
    assert_eq!(doc.write(), "# kept\nHost a\n  HostName a.com\n\n");
}

#[test]
fn host_prefix_matches_without_word_boundary() {
    let doc = Sshc::from_lines(to_lines("Hostxyz abc\n  HostName h.com\n"));
    assert_eq!(doc.write(), "Host xyz abc\n  HostName h.com\n\n");
}

#[test]
fn duplicate_host_keeps_both_markers_and_last_params() {
    let text = "Host a\n  HostName one.com\nHost a\n  HostName two.com\n";
    let doc = Sshc::from_lines(to_lines(text));
    assert_eq!(doc.write(), "Host a\n  HostName two.com\n\nHost a\n  HostName two.com\n\n");
}

#[test]
fn list_filters_by_substring() {
    let mut doc = Sshc::from_lines(to_lines(SAMPLE));
    // "beta" also contains the letter "a", so both hosts match.
    assert_eq!(doc.list("a"), "  alpha -> a.com\n  beta -> b.com\n");
    assert_eq!(doc.list("alp"), "  alpha -> a.com\n");
    assert_eq!(doc.list("bet"), "  beta -> b.com\n");
}

#[test]
fn list_empty_pattern_matches_all_in_file_order() {
    let mut doc = Sshc::from_lines(to_lines(SAMPLE));
    assert_eq!(doc.list(""), "  alpha -> a.com\n  beta -> b.com\n");
}

#[test]
fn list_no_match_is_empty() {
    let mut doc = Sshc::from_lines(to_lines(SAMPLE));
    assert_eq!(doc.list("zzz"), "");
}

#[test]
fn list_blank_when_hostname_key_absent() {
    let mut doc = Sshc::from_lines(to_lines("Host only\n  Port 2022\n"));
    assert_eq!(doc.list(""), "  only -> \n");
}

#[test]
fn list_blank_value_shown_blank() {
    let mut doc = Sshc::from_lines(to_lines("Host h\n  Port 22\n"));
    doc.edit("h", vec![("HostName".to_string(), None)], false);
    assert_eq!(doc.list("h"), "  h -> \n");
}

#[test]
fn add_then_list() {
    let mut doc = Sshc::from_lines(Vec::new());
    doc.add("x", vec![param("HostName", "x.com")]);
    assert_eq!(doc.list("x"), "  x -> x.com\n");
}

#[test]
fn add_appends_marker_and_overwrites_entry() {
    let mut doc = Sshc::from_lines(to_lines("Host a\n  HostName old.com\n"));
    doc.add("a", vec![param("HostName", "new.com")]);
    assert_eq!(doc.write(), "Host a\n  HostName new.com\n\nHost a\n  HostName new.com\n\n");
}

#[test]
fn edit_without_force_merges_in_place() {
    let mut doc = Sshc::from_lines(to_lines("Host h\n  HostName old\n  Port 22\n"));
    doc.edit("h", vec![param("HostName", "new")], false);
    assert_eq!(doc.write(), "Host h\n  HostName new\n  Port 22\n\n");
}

#[test]
fn edit_without_force_appends_new_keys() {
    let mut doc = Sshc::from_lines(to_lines("Host h\n  HostName old\n"));
    doc.edit("h", vec![param("User", "bob")], false);
    assert_eq!(doc.write(), "Host h\n  HostName old\n  User bob\n\n");
}

#[test]
fn edit_with_force_replaces_entirely() {
    let mut doc = Sshc::from_lines(to_lines("Host h\n  HostName old\n  Port 22\n"));
    doc.edit("h", vec![param("User", "bob")], true);
    assert_eq!(doc.write(), "Host h\n  User bob\n\n");
}

#[test]
fn edit_unknown_host_is_noop() {
    let mut doc = Sshc::from_lines(to_lines(SAMPLE));
    doc.edit("nosuch", vec![param("User", "bob")], false);
    assert_eq!(doc.write(), SAMPLE);
    doc.edit("nosuch", vec![param("User", "bob")], true);
    assert_eq!(doc.write(), SAMPLE);
}

#[test]
fn delete_removes_entry_and_first_marker_only() {
    let mut doc = Sshc::from_lines(Vec::new());
    doc.add("x", vec![param("HostName", "x.com")]);
    doc.add("x", vec![param("HostName", "y.com")]);
    doc.delete("x");
    // One dangling marker remains and renders with no parameters.
    assert_eq!(doc.write(), "Host x\n\n");
    assert_eq!(doc.list("x"), "");
}

#[test]
fn delete_unknown_host_is_noop() {
    let mut doc = Sshc::from_lines(to_lines(SAMPLE));
    doc.delete("nosuch");
    assert_eq!(doc.write(), SAMPLE);
}

#[test]
fn find_index_reports_first_marker() {
    let doc = Sshc::from_lines(to_lines(SAMPLE));
    assert_eq!(doc.find_index("alpha"), Some(2));
    assert_eq!(doc.find_index("beta"), Some(3));
    assert_eq!(doc.find_index("nosuch"), None);
}

#[test]
fn comments_inside_host_blocks_are_dropped() {
    let text = "Host a\n# not kept\n  HostName a.com\n";
    let doc = Sshc::from_lines(to_lines(text));
    assert_eq!(doc.write(), "Host a\n  HostName a.com\n\n");
}
