use skillssync_core::{
    escape_multiline_toml, render_block_body, render_subagent_config, toml_escape,
    upsert_block, CodexSubagentConfigEntry, CodexSubagentRegistryError,
    CodexSubagentRegistryWriter, DirNode, ScanSnapshot, SubagentScope,
};

fn bytes(s: &str) -> Vec<u8> {
    s.as_bytes().to_vec()
}

fn text(v: &[u8]) -> String {
    String::from_utf8(v.to_vec()).unwrap()
}

fn contains(hay: &[u8], needle: &[u8]) -> bool {
    !needle.is_empty() && hay.windows(needle.len()).any(|w| w == needle)
}

fn entry(scope: SubagentScope, workspace: Option<&str>, key: &str) -> CodexSubagentConfigEntry {
    CodexSubagentConfigEntry {
        scope,
        workspace: workspace.map(bytes),
        subagent_key: bytes(key),
        description: bytes("desc"),
        prompt: bytes("prompt"),
        model: None,
    }
}

#[test]
fn toml_escape_doubles_backslashes_and_quotes() {
    assert_eq!(text(&toml_escape(&bytes(r#"a\b"c"#))), r#"a\\b\"c"#);
    assert_eq!(text(&toml_escape(&bytes("plain"))), "plain");
}

#[test]
fn multiline_escape_handles_triple_quotes() {
    assert_eq!(
        text(&escape_multiline_toml(&bytes("x\\y\"\"\"z"))),
        "x\\\\y\\\"\\\"\\\"z",
    );
    assert_eq!(text(&escape_multiline_toml(&bytes("a\"\"b"))), "a\"\"b");
}

#[test]
fn detail_file_escapes_backslashes_in_prompt() {
    let mut e = entry(SubagentScope::Global, None, "inspector");
    e.description = bytes("Inspect changes");
    e.prompt = bytes("Use C:\\temp\\repo and regex \\d+\\.md");
    let raw = render_subagent_config(&e);
    assert!(contains(&raw, b"C:\\\\temp\\\\repo"));
    assert!(contains(&raw, b"\\\\d+\\\\.md"));
    assert!(text(&raw).starts_with("developer_instructions = \"\"\""));
}

#[test]
fn detail_file_holds_the_optional_model() {
    let mut e = entry(SubagentScope::Global, None, "a");
    e.prompt = bytes("p");
    e.model = Some(bytes("gpt-x"));
    assert_eq!(
        text(&render_subagent_config(&e)),
        "developer_instructions = \"\"\"p\"\"\"\nmodel = \"gpt-x\"\n",
    );
    e.model = None;
    assert_eq!(
        text(&render_subagent_config(&e)),
        "developer_instructions = \"\"\"p\"\"\"\n",
    );
}

#[test]
fn block_body_lists_sections_in_order() {
    let entries = vec![
        entry(SubagentScope::Global, None, "alpha"),
        entry(SubagentScope::Global, None, "beta"),
    ];
    let body = render_block_body(&entries);
    assert_eq!(
        text(&body),
        "[agents.alpha]\ndescription = \"desc\"\nconfig_file = \"agents/alpha.toml\"\n\n\
         [agents.beta]\ndescription = \"desc\"\nconfig_file = \"agents/beta.toml\"",
    );
}

#[test]
fn invalid_home_directory_fails_before_any_plan() {
    let writer = CodexSubagentRegistryWriter::new(bytes("relative/home"));
    assert!(matches!(
        writer.check_home(),
        Err(CodexSubagentRegistryError::InvalidHomeDirectory(_)),
    ));
    let plan = writer.build_sync_plan(&vec![entry(SubagentScope::Global, None, "a")], &vec![]);
    match plan {
        Err(CodexSubagentRegistryError::InvalidHomeDirectory(h)) => {
            assert_eq!(text(&h), "relative/home");
        },
        _ => panic!("expected an invalid home directory error"),
    }
}

#[test]
fn posix_and_drive_rooted_homes_are_accepted() {
    assert!(CodexSubagentRegistryWriter::new(bytes("/home/u")).check_home().is_ok());
    assert!(CodexSubagentRegistryWriter::new(bytes("C:\\Users\\u")).check_home().is_ok());
}

#[test]
fn project_entry_without_workspace_is_skipped() {
    let writer = CodexSubagentRegistryWriter::new(bytes("/h"));
    let entries = vec![entry(SubagentScope::Project, None, "lost")];
    let plans = writer.build_sync_plan(&entries, &vec![]).unwrap();
    assert!(plans.is_empty());
}

#[test]
fn grouping_puts_same_destination_entries_in_one_plan() {
    let writer = CodexSubagentRegistryWriter::new(bytes("/h"));
    let entries = vec![
        entry(SubagentScope::Project, Some("/ws"), "alpha"),
        entry(SubagentScope::Global, None, "solo"),
        entry(SubagentScope::Project, Some("/ws"), "beta"),
    ];
    let plans = writer.build_sync_plan(&entries, &vec![]).unwrap();
    assert_eq!(plans.len(), 2);
    let ws = &plans[0];
    assert_eq!(text(&ws.config_path), "/ws/.codex/config.toml");
    assert_eq!(text(&ws.base_dir), "/ws/.codex");
    assert_eq!(text(&ws.agents_dir), "/ws/.codex/agents");
    assert_eq!(ws.detail_files.len(), 2);
    assert_eq!(text(&ws.detail_files[0].path), "/ws/.codex/agents/alpha.toml");
    assert_eq!(text(&ws.detail_files[1].path), "/ws/.codex/agents/beta.toml");
    let body = text(&ws.block_body);
    let alpha = body.find("[agents.alpha]").unwrap();
    let beta = body.find("[agents.beta]").unwrap();
    assert!(alpha < beta);
    assert_eq!(text(&plans[1].config_path), "/h/.codex/config.toml");
}

#[test]
fn stale_destination_gets_an_empty_group() {
    let writer = CodexSubagentRegistryWriter::new(bytes("/h"));
    let stale = vec![bytes("/old/.codex/config.toml")];
    let plans = writer.build_sync_plan(&vec![], &stale).unwrap();
    assert_eq!(plans.len(), 1);
    assert_eq!(text(&plans[0].config_path), "/old/.codex/config.toml");
    assert!(plans[0].detail_files.is_empty());
    assert!(plans[0].block_body.is_empty());
    let existing = bytes(
        "# skills-sync:subagents:begin\n[agents.legacy]\n# skills-sync:subagents:end\n",
    );
    let rewritten = upsert_block(&existing, &plans[0].block_body);
    assert_eq!(
        text(&rewritten),
        "# skills-sync:subagents:begin\n# No managed subagent entries\n# skills-sync:subagents:end\n",
    );
}

fn leaf(name: &str, managed: bool) -> DirNode {
    DirNode { name: bytes(name), has_managed_config: managed, children: vec![] }
}

#[test]
fn scanner_finds_configs_within_the_level_budget() {
    let writer = CodexSubagentRegistryWriter::new(bytes("/h"));
    let snapshot = ScanSnapshot {
        global_config_has_block: true,
        dev_dirs: Some(vec![DirNode {
            name: bytes("owner"),
            has_managed_config: false,
            children: vec![leaf("repo-a", true)],
        }]),
        worktree_dirs: None,
    };
    let found = writer.find_managed_config_candidates(&snapshot);
    let found: Vec<String> = found.iter().map(|p| text(p)).collect();
    assert_eq!(found.len(), 2);
    assert!(found.contains(&"/h/.codex/config.toml".to_string()));
    assert!(found.contains(&"/h/Dev/owner/repo-a/.codex/config.toml".to_string()));
}

#[test]
fn scanner_never_reaches_below_the_level_budget() {
    let writer = CodexSubagentRegistryWriter::new(bytes("/h"));
    let deep = DirNode {
        name: bytes("repo-a"),
        has_managed_config: false,
        children: vec![DirNode {
            name: bytes("src"),
            has_managed_config: false,
            children: vec![DirNode {
                name: bytes("nested"),
                has_managed_config: true,
                children: vec![],
            }],
        }],
    };
    let snapshot = ScanSnapshot {
        global_config_has_block: false,
        dev_dirs: Some(vec![deep]),
        worktree_dirs: None,
    };
    let found = writer.find_managed_config_candidates(&snapshot);
    assert!(found.is_empty());
}

#[test]
fn scanner_prunes_below_a_found_config() {
    let writer = CodexSubagentRegistryWriter::new(bytes("/h"));
    let tree = DirNode {
        name: bytes("top"),
        has_managed_config: true,
        children: vec![leaf("below", true)],
    };
    let snapshot = ScanSnapshot {
        global_config_has_block: false,
        dev_dirs: Some(vec![tree]),
        worktree_dirs: None,
    };
    let found = writer.find_managed_config_candidates(&snapshot);
    assert_eq!(found.len(), 1);
    assert_eq!(text(&found[0]), "/h/Dev/top/.codex/config.toml");
}

#[test]
fn worktrees_are_scanned_three_levels_deep() {
    let writer = CodexSubagentRegistryWriter::new(bytes("/h"));
    let snapshot = ScanSnapshot {
        global_config_has_block: false,
        dev_dirs: None,
        worktree_dirs: Some(vec![DirNode {
            name: bytes("a"),
            has_managed_config: false,
            children: vec![DirNode {
                name: bytes("b"),
                has_managed_config: false,
                children: vec![leaf("c", true)],
            }],
        }]),
    };
    let found = writer.find_managed_config_candidates(&snapshot);
    assert_eq!(found.len(), 1);
    assert_eq!(text(&found[0]), "/h/.codex/worktrees/a/b/c/.codex/config.toml");
}

#[test]
fn resolve_config_path_follows_the_scope() {
    let writer = CodexSubagentRegistryWriter::new(bytes("/h"));
    let g = writer.resolve_config_path(&entry(SubagentScope::Global, None, "k")).unwrap();
    assert_eq!(text(&g), "/h/.codex/config.toml");
    let p = writer
        .resolve_config_path(&entry(SubagentScope::Project, Some("/ws"), "k"))
        .unwrap();
    assert_eq!(text(&p), "/ws/.codex/config.toml");
    assert!(writer.resolve_config_path(&entry(SubagentScope::Project, None, "k")).is_none());
}
