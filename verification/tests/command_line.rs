use ghosty_tui::cli::{parse_args, Cli, CliError, Command};
use ghosty_tui::client::{http_error_message, message_body, message_url};

fn args(v: &[&str]) -> Vec<String> {
    v.iter().map(|s| s.to_string()).collect()
}

fn run(agent: &str, token: &str, session: &str, once: Option<&str>) -> Result<Command, CliError> {
    Ok(Command::Run(Cli {
        agent: agent.to_string(),
        token: token.to_string(),
        session: session.to_string(),
        once: once.map(|s| s.to_string()),
    }))
}

#[test]
fn flags_set_everything() {
    assert_eq!(
        parse_args(None, None, args(&["--agent", "a1", "--token", "t1", "--session", "s", "--once", "hola"])),
        run("a1", "t1", "s", Some("hola"))
    );
    assert_eq!(parse_args(None, None, args(&["--agent", "a1", "--token", "t1"])), run("a1", "t1", "default", None));
}

#[test]
fn environment_is_the_fallback() {
    assert_eq!(
        parse_args(Some("ea".to_string()), Some("et".to_string()), args(&[])),
        run("ea", "et", "default", None)
    );
    assert_eq!(
        parse_args(Some("ea".to_string()), Some("et".to_string()), args(&["--agent", "x"])),
        run("x", "et", "default", None)
    );
}

#[test]
fn missing_values() {
    assert_eq!(parse_args(None, Some("t".to_string()), args(&[])), Err(CliError::MissingAgent));
    assert_eq!(parse_args(Some("a".to_string()), None, args(&[])), Err(CliError::MissingToken));
    assert_eq!(parse_args(None, None, args(&[])), Err(CliError::MissingAgent));
    assert_eq!(
        parse_args(Some(String::new()), Some("t".to_string()), args(&[])),
        Err(CliError::MissingAgent)
    );
    assert_eq!(
        parse_args(Some("a".to_string()), Some("t".to_string()), args(&["--agent"])),
        Err(CliError::MissingAgent)
    );
    assert_eq!(
        parse_args(Some("a".to_string()), Some("t".to_string()), args(&["--session"])),
        run("a", "t", "default", None)
    );
}

#[test]
fn help_and_unknown_arguments() {
    assert_eq!(parse_args(None, None, args(&["-h"])), Ok(Command::Help));
    assert_eq!(parse_args(None, None, args(&["--agent", "a", "--help", "--bogus"])), Ok(Command::Help));
    assert_eq!(
        parse_args(None, None, args(&["--bogus", "--help"])),
        Err(CliError::UnknownArgument("--bogus".to_string()))
    );
    assert_eq!(
        parse_args(None, None, args(&["--agent", "--help"])),
        Err(CliError::MissingToken)
    );
}

#[test]
fn error_messages() {
    assert_eq!(CliError::UnknownArgument("-x".to_string()).message(), "argumento desconocido: -x");
    assert_eq!(
        CliError::MissingAgent.message(),
        "falta --agent <id> (o env GHOSTY_AGENT). Obtén uno con el MCP agent_create({})."
    );
    assert_eq!(
        CliError::MissingToken.message(),
        "falta --token <embedToken> (o env GHOSTY_TOKEN). Es el embedToken de agent_create."
    );
}

#[test]
fn request_parts() {
    assert_eq!(message_url("6a297a67"), "https://www.easybits.cloud/api/v2/agents/6a297a67/message");
    assert_eq!(
        message_body("hola \"tú\"\n", "default"),
        "{\"content\":\"hola \\\"tú\\\"\\n\",\"sessionId\":\"default\"}"
    );
    let long = "x".repeat(300);
    assert_eq!(http_error_message("404 Not Found", &long), format!("HTTP 404 Not Found: {}", "x".repeat(200)));
    assert_eq!(http_error_message("500 Internal Server Error", "boom"), "HTTP 500 Internal Server Error: boom");
}

#[test]
fn body_escapes_as_json_writes_it() {
    assert_eq!(
        message_body("a\\b\t\r\u{8}\u{c}\u{1}\u{1f}\u{7f}ñ", "s/1"),
        "{\"content\":\"a\\\\b\\t\\r\\b\\f\\u0001\\u001f\u{7f}ñ\",\"sessionId\":\"s/1\"}"
    );
    assert_eq!(message_body("", ""), "{\"content\":\"\",\"sessionId\":\"\"}");
}
