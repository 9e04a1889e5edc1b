use arcanum::mcp::common::{
    bash_tool, laboratory_id, parse_token_repeat, required_header, token_repeat,
    token_repeat_from_field, JsonField, Laboratory, McpServer, ToolError, ARGUMENTS_HEADER,
};
use arcanum::text::parse_u64;

#[test]
fn token_repeat_accepts_string_and_number() {
    assert_eq!(parse_token_repeat(r#"{"token-repeat":"5000"}"#), Some(5000));
    assert_eq!(parse_token_repeat(r#"{"token-repeat":5000}"#), Some(5000));
}

#[test]
fn token_repeat_rejects_missing_or_bad() {
    assert_eq!(parse_token_repeat(r#"{}"#), None);
    assert_eq!(parse_token_repeat(r#"{"token-repeat":"abc"}"#), None);
    assert_eq!(parse_token_repeat(r#"not json"#), None);
}

#[test]
fn token_repeat_other_forms() {
    assert_eq!(parse_token_repeat(r#"{"token-repeat":"+7"}"#), Some(7));
    assert_eq!(parse_token_repeat(r#"{"token-repeat":"-7"}"#), None);
    assert_eq!(parse_token_repeat(r#"{"token-repeat":-7}"#), None);
    assert_eq!(parse_token_repeat(r#"{"token-repeat":7.5}"#), None);
    assert_eq!(parse_token_repeat(r#"{"token-repeat":null}"#), None);
    assert_eq!(parse_token_repeat(r#"{"token-repeat":"18446744073709551615"}"#), Some(u64::MAX));
    assert_eq!(parse_token_repeat(r#"{"token-repeat":"18446744073709551616"}"#), None);
    assert_eq!(parse_token_repeat(r#"[1,2]"#), None);
    assert_eq!(parse_token_repeat(r#"{"other":1,"token-repeat":"12"}"#), Some(12));
}

#[test]
fn token_repeat_from_field_forms() {
    assert_eq!(token_repeat_from_field(&JsonField::Number(Some(3))), Some(3));
    assert_eq!(token_repeat_from_field(&JsonField::Number(None)), None);
    assert_eq!(token_repeat_from_field(&JsonField::Text("42".to_string())), Some(42));
    assert_eq!(token_repeat_from_field(&JsonField::Text("".to_string())), None);
    assert_eq!(token_repeat_from_field(&JsonField::NotJson), None);
    assert_eq!(token_repeat_from_field(&JsonField::Absent), None);
    assert_eq!(token_repeat_from_field(&JsonField::Other), None);
}

#[test]
fn parse_u64_matches_std() {
    for s in ["0", "007", "+1", "+", "", "-1", "1a", " 1", "18446744073709551615", "18446744073709551616", "99999999999999999999x"] {
        assert_eq!(parse_u64(s), s.parse::<u64>().ok(), "input {s:?}");
    }
}

fn invalid_params(r: &Result<impl Sized, ToolError>) -> Option<String> {
    match r {
        Err(ToolError::InvalidParams(m)) => Some(m.clone()),
        _ => None,
    }
}

#[test]
fn required_header_trims_and_rejects() {
    assert!(matches!(required_header(Some(Some("  abc \t")), "x"), Ok(ref v) if v == "abc"));
    assert_eq!(
        invalid_params(&required_header(Some(Some("   ")), "x-objectiveai-response-id")),
        Some("missing required header: x-objectiveai-response-id".to_string())
    );
    assert_eq!(
        invalid_params(&required_header(Some(None), "h")),
        Some("missing required header: h".to_string())
    );
    assert_eq!(
        invalid_params(&required_header(None, "h")),
        Some("missing request parts".to_string())
    );
}

#[test]
fn token_repeat_header_errors() {
    assert!(matches!(token_repeat(Some(Some(r#" {"token-repeat":"9"} "#))), Ok(9)));
    assert_eq!(
        invalid_params(&token_repeat(Some(Some(r#"{"token-repeat":true}"#)))),
        Some("token-repeat must be a u64".to_string())
    );
    assert_eq!(
        invalid_params(&token_repeat(Some(None))),
        Some(format!("missing required header: {ARGUMENTS_HEADER}"))
    );
    assert_eq!(
        invalid_params(&token_repeat(None)),
        Some("missing request parts".to_string())
    );
}

#[test]
fn laboratory_id_and_bash_tool() {
    let lab = McpServer {
        name: "lab".to_string(),
        laboratory: Some(Laboratory::Client { id: "L1".to_string() }),
    };
    assert_eq!(laboratory_id(&lab), Some("L1"));
    assert_eq!(bash_tool(&lab), "lab_Bash");
    let agent = McpServer { name: "a".to_string(), laboratory: Some(Laboratory::Agent) };
    assert_eq!(laboratory_id(&agent), None);
    let plain = McpServer { name: "p".to_string(), laboratory: None };
    assert_eq!(laboratory_id(&plain), None);
}
