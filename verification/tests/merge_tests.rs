use skillssync_core::{has_subagent_managed_block, upsert_block};

const BEGIN: &str = "# skills-sync:subagents:begin";
const END: &str = "# skills-sync:subagents:end";
const PLACEHOLDER: &str = "# No managed subagent entries";

fn bytes(s: &str) -> Vec<u8> {
    s.as_bytes().to_vec()
}

fn text(v: &[u8]) -> String {
    String::from_utf8(v.to_vec()).unwrap()
}

#[test]
fn upsert_into_empty_text_is_the_block_alone() {
    let out = upsert_block(&bytes(""), &bytes("[agents.a]"));
    assert_eq!(text(&out), format!("{BEGIN}\n[agents.a]\n{END}\n"));
}

#[test]
fn upsert_blank_text_is_treated_as_empty() {
    let out = upsert_block(&bytes("  \n\t\n"), &bytes("x = 1"));
    assert_eq!(text(&out), format!("{BEGIN}\nx = 1\n{END}\n"));
}

#[test]
fn upsert_blank_body_writes_the_placeholder() {
    let existing = format!("{BEGIN}\n[agents.legacy]\n{END}\n");
    let out = upsert_block(&bytes(&existing), &bytes(""));
    assert_eq!(text(&out), format!("{BEGIN}\n{PLACEHOLDER}\n{END}\n"));
}

#[test]
fn upsert_keeps_text_outside_the_markers() {
    let existing = format!("custom = true\n\n{BEGIN}\nold body\n{END}\n\ntrailer = 1\n");
    let out = upsert_block(&bytes(&existing), &bytes("new body"));
    assert_eq!(
        text(&out),
        format!("custom = true\n\n{BEGIN}\nnew body\n{END}\n\ntrailer = 1\n"),
    );
}

#[test]
fn upsert_appends_when_no_marker_pair_exists() {
    let out = upsert_block(&bytes("custom = true\n"), &bytes("body"));
    assert_eq!(text(&out), format!("custom = true\n\n{BEGIN}\nbody\n{END}\n"));
}

#[test]
fn upsert_twice_gives_the_same_text() {
    let existing = format!("keep = 1\n{BEGIN}\nstale\n{END}\nafter = 2\n");
    let body = bytes("[agents.a]\ndescription = \"d\"");
    let once = upsert_block(&bytes(&existing), &body);
    let twice = upsert_block(&once, &body);
    assert_eq!(text(&once), text(&twice));
}

#[test]
fn upsert_twice_on_fresh_text_gives_the_same_text() {
    let body = bytes("b = 2");
    let once = upsert_block(&bytes(""), &body);
    let twice = upsert_block(&once, &body);
    assert_eq!(text(&once), text(&twice));
}

#[test]
fn upsert_normalizes_crlf_line_endings() {
    let existing = format!("one\r\ntwo\r\n\n{BEGIN}\nold\n{END}\n");
    let out = upsert_block(&bytes(&existing), &bytes("new"));
    assert_eq!(text(&out), format!("one\ntwo\n\n{BEGIN}\nnew\n{END}\n"));
}

#[test]
fn upsert_replaces_only_the_first_marker_pair() {
    let existing = format!("{BEGIN}\nold\n{END}\n\n{BEGIN}\nother\n{END}\n");
    let out = upsert_block(&bytes(&existing), &bytes("new"));
    assert_eq!(text(&out), format!("{BEGIN}\nnew\n{END}\n\n{BEGIN}\nother\n{END}\n"));
}

#[test]
fn managed_block_detection_needs_the_begin_marker() {
    assert!(has_subagent_managed_block(&bytes(&format!("x\n{BEGIN}\ny\n"))));
    assert!(!has_subagent_managed_block(&bytes("x\ny\n")));
    assert!(!has_subagent_managed_block(&bytes(&format!("{END}\n"))));
}
