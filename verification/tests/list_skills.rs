use arcanum::mcp::common::{Laboratory, McpServer};
use arcanum::mcp::list_skills::{gather_skill_items, lab_targets, parse_skill_paths};

#[test]
fn parses_nested_and_excludes_root() {
    let out = "/a/b/SKILL.md\n/x/skill.md\n/SKILL.md\nSKILL.md\n\n";
    let items = parse_skill_paths("lab1", out);
    assert_eq!(items.len(), 2);
    assert_eq!(items[0].name, "b");
    assert_eq!(items[0].path, "/a/b");
    assert_eq!(items[0].laboratory_id, "lab1");
    assert_eq!(items[1].name, "x"); // case-insensitive filename still counts
    assert_eq!(items[1].path, "/x");
}

#[test]
fn keeps_duplicates() {
    let out = "/a/b/SKILL.md\n/a/b/SKILL.md\n";
    assert_eq!(parse_skill_paths("lab", out).len(), 2);
}

#[test]
fn trims_lines_and_crlf() {
    let out = "  /skills/greeting/SKILL.md \r\n\t/skills/nested/deep-skill/SKILL.md\r\n";
    let items = parse_skill_paths("lab", out);
    assert_eq!(items.len(), 2);
    assert_eq!(items[0].name, "greeting");
    assert_eq!(items[0].path, "/skills/greeting");
    assert_eq!(items[1].name, "deep-skill");
    assert_eq!(items[1].path, "/skills/nested/deep-skill");
}

#[test]
fn skips_empty_folder_names_and_blank_output() {
    assert_eq!(parse_skill_paths("lab", "/a//SKILL.md\n").len(), 0);
    assert_eq!(parse_skill_paths("lab", "").len(), 0);
    assert_eq!(parse_skill_paths("lab", "\n\n   \n").len(), 0);
}

#[test]
fn relative_paths_name_their_folder() {
    let items = parse_skill_paths("lab", "skills/s1/SKILL.md\nrel/SKILL.md");
    assert_eq!(items.len(), 2);
    assert_eq!(items[0].name, "s1");
    assert_eq!(items[0].path, "skills/s1");
    assert_eq!(items[1].name, "rel");
    assert_eq!(items[1].path, "rel");
}

#[test]
fn non_ascii_paths_keep_their_characters() {
    let items = parse_skill_paths("lab", "/sk\u{e9}lls/gr\u{fc}\u{df}e/SKILL.md\n");
    assert_eq!(items.len(), 1);
    assert_eq!(items[0].name, "gr\u{fc}\u{df}e");
    assert_eq!(items[0].path, "/sk\u{e9}lls/gr\u{fc}\u{df}e");
}

fn server(name: &str, lab: Option<Laboratory>) -> McpServer {
    McpServer { name: name.to_string(), laboratory: lab }
}

#[test]
fn lab_targets_keep_only_client_laboratories() {
    let servers = vec![
        server("objectiveai", None),
        server("lab_a", Some(Laboratory::Client { id: "a".to_string() })),
        server("agent", Some(Laboratory::Agent)),
        server("lab_b", Some(Laboratory::Client { id: "b".to_string() })),
    ];
    let targets = lab_targets(&servers);
    assert_eq!(
        targets,
        vec![
            ("a".to_string(), "lab_a_Bash".to_string()),
            ("b".to_string(), "lab_b_Bash".to_string()),
        ]
    );
}

#[test]
fn gather_skips_failed_laboratories_and_keeps_order() {
    let labs = vec![
        ("one".to_string(), "one_Bash".to_string()),
        ("two".to_string(), "two_Bash".to_string()),
        ("three".to_string(), "three_Bash".to_string()),
    ];
    let outs = vec![
        Some("/skills/greeting/SKILL.md\n/skills/farewell/SKILL.md\n".to_string()),
        None,
        Some("/skills/greeting/SKILL.md\n".to_string()),
    ];
    let items = gather_skill_items(&labs, &outs);
    let got: Vec<(String, String, String)> = items
        .into_iter()
        .map(|i| (i.laboratory_id, i.name, i.path))
        .collect();
    assert_eq!(
        got,
        vec![
            ("one".to_string(), "greeting".to_string(), "/skills/greeting".to_string()),
            ("one".to_string(), "farewell".to_string(), "/skills/farewell".to_string()),
            ("three".to_string(), "greeting".to_string(), "/skills/greeting".to_string()),
        ]
    );
}

#[test]
fn skills_gathered_across_two_laboratories() {
    let servers = vec![
        server("objectiveai", None),
        server("one", Some(Laboratory::Client { id: "skills-one".to_string() })),
        server("two", Some(Laboratory::Client { id: "skills-two".to_string() })),
    ];
    let labs = lab_targets(&servers);
    let outs = vec![
        Some("/skills/greeting/SKILL.md\n/skills/farewell/SKILL.md\n".to_string()),
        Some(
            "/skills/greeting/SKILL.md\n/skills/summarize/skill.md\n/skills/nested/deep-skill/SKILL.md\n/SKILL.md\n"
                .to_string(),
        ),
    ];
    let items = gather_skill_items(&labs, &outs);
    let has = |lab: &str, name: &str, path: &str| {
        items.iter().any(|i| i.laboratory_id == lab && i.name == name && i.path == path)
    };
    assert!(has("skills-one", "greeting", "/skills/greeting"));
    assert!(has("skills-one", "farewell", "/skills/farewell"));
    assert!(has("skills-two", "greeting", "/skills/greeting"));
    assert!(has("skills-two", "summarize", "/skills/summarize"));
    assert!(has("skills-two", "deep-skill", "/skills/nested/deep-skill"));
    assert_eq!(items.len(), 5);
}

#[test]
fn file_names_do_not_change_items() {
    let a = parse_skill_paths("lab", "/s/one/SKILL.md\n/s/two/skill.md\n");
    let b = parse_skill_paths("lab", "/s/one/README\n/s/two/Skill.MD\n");
    let pairs = |v: Vec<arcanum::mcp::list_skills::SkillItem>| {
        v.into_iter().map(|i| (i.name, i.path)).collect::<Vec<_>>()
    };
    assert_eq!(pairs(a), pairs(b));
}
