use arcanum::mcp::common::{Laboratory, McpServer, ToolError};
use arcanum::mcp::hello::{greeting, HelloRequest};
use arcanum::mcp::load_skill::{
    find_laboratory, first_load_baseline, loaded_skill_content, shell_single_quote, skill_md_command,
};

#[test]
fn single_quote_escapes_quotes() {
    assert_eq!(shell_single_quote("/skills/greeting"), "'/skills/greeting'");
    assert_eq!(shell_single_quote("it's"), "'it'\\''s'");
    assert_eq!(shell_single_quote(""), "''");
    assert_eq!(shell_single_quote("''"), "''\\'''\\'''");
    assert_eq!(shell_single_quote("$(rm -rf /) `x` \"y\""), "'$(rm -rf /) `x` \"y\"'");
}

#[test]
fn skill_md_command_quotes_the_path() {
    assert_eq!(
        skill_md_command("/skills/it's"),
        "f=$(find '/skills/it'\\''s' -maxdepth 1 -iname 'SKILL.md' 2>/dev/null | head -1); [ -n \"$f\" ] && cat \"$f\""
    );
}

fn servers() -> Vec<McpServer> {
    vec![
        McpServer { name: "objectiveai".to_string(), laboratory: None },
        McpServer {
            name: "first".to_string(),
            laboratory: Some(Laboratory::Client { id: "lab".to_string() }),
        },
        McpServer {
            name: "second".to_string(),
            laboratory: Some(Laboratory::Client { id: "lab".to_string() }),
        },
    ]
}

#[test]
fn find_laboratory_takes_the_first_match() {
    assert!(matches!(find_laboratory(&servers(), "lab"), Ok(1)));
    match find_laboratory(&servers(), "nope") {
        Err(ToolError::InvalidParams(m)) => assert_eq!(m, "no laboratory with id nope"),
        _ => panic!("expected an invalid-params error"),
    }
}

#[test]
fn loaded_skill_content_checks_the_answer() {
    match loaded_skill_content(Some("# Greeting skill\nsay hi\n\n".to_string()), "/s") {
        Ok(c) => assert_eq!(c, "# Greeting skill\nsay hi"),
        _ => panic!("expected content"),
    }
    match loaded_skill_content(Some("\n\n".to_string()), "/skills/none") {
        Err(ToolError::InvalidParams(m)) => assert_eq!(m, "no SKILL.md found at /skills/none"),
        _ => panic!("expected an invalid-params error"),
    }
    match loaded_skill_content(None, "/s") {
        Err(ToolError::Internal(m)) => {
            assert_eq!(m, "failed to read SKILL.md over the laboratory")
        }
        _ => panic!("expected an internal error"),
    }
    match loaded_skill_content(Some("x\r\n".to_string()), "/s") {
        Ok(c) => assert_eq!(c, "x\r"),
        _ => panic!("expected content"),
    }
}

#[test]
fn hello_greets() {
    assert_eq!(greeting(&HelloRequest { name: None }), "Hello, world!");
    assert_eq!(greeting(&HelloRequest { name: Some("Ada".to_string()) }), "Hello, Ada!");
}

#[test]
fn first_load_sets_the_baseline() {
    assert_eq!(first_load_baseline(false, Some(1234)), Some(1234));
    assert_eq!(first_load_baseline(false, None), Some(0));
    assert_eq!(first_load_baseline(true, Some(1234)), None);
    assert_eq!(first_load_baseline(true, None), None);
}
