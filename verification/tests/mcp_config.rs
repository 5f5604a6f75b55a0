use atomcode_core::json::{parse_json, Json};
use atomcode_core::mcp::config::{
    load_config_file, load_mcp_config, server_entry_to_config, McpAuthEntry, McpConfigError, McpConfigSource,
    McpHttpAuthConfig, McpServerConfig, McpServerEntry, McpTransportConfig, Surroundings,
};
use atomcode_core::mcp::config_file::{
    add_auto_approved_tool, approve_tool, change_document, collect_merged_mcp_server_maps, document_defines,
    merge_http_oauth_mcp_server_into_json_file, merge_stdio_mcp_server_into_json_file, set_server, ConfigFileError,
    ConfigTarget,
};
use atomcode_core::mcp::expand::{expand_env_vars, expand_tilde};
use atomcode_core::text_map::TextMap;

fn vars(list: &[(&str, &str)]) -> TextMap<String> {
    let mut m = TextMap::new();
    for (k, v) in list {
        m.insert(k.to_string(), v.to_string());
    }
    m
}

fn surroundings() -> Surroundings {
    Surroundings { env: vars(&[("TOKEN", "t0")]), home: Some("/home/u".to_string()) }
}

fn entry() -> McpServerEntry {
    McpServerEntry {
        disabled: false,
        command: None,
        args: None,
        env: None,
        url: None,
        headers: None,
        auth: None,
        timeout_ms: None,
        trust: false,
        auto_approve: vec![],
    }
}

fn auth(kind: Option<&str>) -> McpAuthEntry {
    McpAuthEntry {
        kind: kind.map(String::from),
        provider: None,
        issuer: None,
        resource: None,
        client_id: None,
        client_secret_env: None,
        scopes: vec![],
        bearer: None,
        header: None,
    }
}

fn convert(name: &str, e: &McpServerEntry) -> Result<McpServerConfig, McpConfigError> {
    server_entry_to_config(name, e, McpConfigSource::Project, &surroundings())
}

fn at<'a>(j: &'a Json, path: &[&str]) -> &'a Json {
    path.iter().fold(j, |j, key| j.get(key).unwrap())
}

#[test]
fn test_expand_env_vars_simple() {
    let result = expand_env_vars("${TEST_VAR}", &vars(&[("TEST_VAR", "test_value")]));
    assert_eq!(result, "test_value");
}

#[test]
fn test_expand_env_vars_with_default() {
    let result = expand_env_vars("${NONEXISTENT_VAR:-default_value}", &vars(&[]));
    assert_eq!(result, "default_value");
}

#[test]
fn test_expand_env_vars_existing_with_default() {
    let result = expand_env_vars("${EXISTING_VAR:-unused}", &vars(&[("EXISTING_VAR", "actual")]));
    assert_eq!(result, "actual");
}

#[test]
fn test_expand_env_vars_no_var() {
    let result = expand_env_vars("${MISSING_VAR}", &vars(&[]));
    assert_eq!(result, "");
}

#[test]
fn test_expand_env_vars_mixed() {
    let env = vars(&[("VAR1", "a"), ("VAR2", "b")]);
    let result = expand_env_vars("prefix_${VAR1}_middle_${VAR2}_suffix", &env);
    assert_eq!(result, "prefix_a_middle_b_suffix");
}

#[test]
fn dollars_without_braces_are_kept() {
    let env = vars(&[("A", "x")]);
    assert_eq!(expand_env_vars("$A and $$ and $", &env), "$A and $$ and $");
    assert_eq!(expand_env_vars("plain", &env), "plain");
    assert_eq!(expand_env_vars("", &env), "");
    assert_eq!(expand_env_vars("\u{4e2d}\u{6587} ${A} ${B:-\u{e9}}", &env), "\u{4e2d}\u{6587} x \u{e9}");
}

#[test]
fn test_expand_tilde_home_only() {
    let home = Some("/home/u".to_string());
    assert_eq!(expand_tilde("~", &home), "/home/u");
}

#[test]
fn test_expand_tilde_home_prefix() {
    let home = Some("/home/u".to_string());
    assert_eq!(expand_tilde("~/x/y", &home), "/home/u/x/y");
}

#[test]
fn test_expand_tilde_does_not_expand_other_forms() {
    let home = Some("/home/u".to_string());
    assert_eq!(expand_tilde("~someone/x", &home), "~someone/x");
    assert_eq!(expand_tilde("/abs/path", &home), "/abs/path");
    assert_eq!(expand_tilde("~", &None), "~");
}

#[test]
fn merge_stdio_creates_mcp_servers() {
    let text = merge_stdio_mcp_server_into_json_file(None, "p", "npx", &["@x/y".to_string()]).unwrap();
    let v = parse_json(&text).unwrap();
    let p = at(&v, &["mcpServers", "p"]);
    assert_eq!(p.str_at("command"), Some("npx"));
    assert_eq!(p.get("args").unwrap().as_array().unwrap()[0].as_str(), Some("@x/y"));
}

#[test]
fn merge_stdio_preserves_other_top_level_keys() {
    let before = r#"{"note":"keep","mcpServers":{"old":{"command":"true","args":[]}}}"#;
    let text = merge_stdio_mcp_server_into_json_file(Some(before), "new", "uv", &[]).unwrap();
    let v = parse_json(&text).unwrap();
    assert_eq!(v.str_at("note"), Some("keep"));
    let m = v.get("mcpServers").unwrap();
    assert!(m.get("old").is_some());
    assert!(m.get("new").is_some());
}

#[test]
fn other_names_for_the_servers_are_gathered() {
    let before = parse_json(r#"{"servers":{"a":{"command":"1"}},"mcpServers":{"b":{"command":"2"}}}"#).unwrap();
    let all = collect_merged_mcp_server_maps(&before);
    assert_eq!(all.len(), 2);
    let after = set_server(before, "c", Json::of_text("x"));
    assert!(after.get("servers").is_none());
    for key in ["a", "b", "c"] {
        assert!(at(&after, &["mcpServers"]).get(key).is_some(), "{key}");
    }
}

#[test]
fn unusable_files_and_names_are_refused() {
    let stdio = |text, key, program| merge_stdio_mcp_server_into_json_file(text, key, program, &[]);
    assert!(matches!(stdio(None, "", "x"), Err(ConfigFileError::EmptyName)));
    assert!(matches!(stdio(None, "k", ""), Err(ConfigFileError::EmptyCommand)));
    assert!(matches!(stdio(Some("nope"), "k", "x"), Err(ConfigFileError::NotJson)));
    assert!(matches!(stdio(Some("[]"), "k", "x"), Err(ConfigFileError::NotAnObject)));
    let oauth = merge_http_oauth_mcp_server_into_json_file;
    assert!(matches!(oauth(None, "", "u", "p"), Err(ConfigFileError::EmptyName)));
    assert!(matches!(oauth(None, "k", "", "p"), Err(ConfigFileError::EmptyUrl)));
    assert!(matches!(oauth(None, "k", "u", ""), Err(ConfigFileError::EmptyProvider)));
    assert!(matches!(change_document(Json::Null, "k", Json::Null), Err(ConfigFileError::NotAnObject)));
    assert_eq!(ConfigFileError::EmptyName.text(), "MCP server name must not be empty");
}

#[test]
fn http_config_accepts_oauth_auth() {
    let mut e = entry();
    e.url = Some("https://api.githubcopilot.com/mcp/".into());
    let mut a = auth(Some("oauth"));
    a.provider = Some("github".into());
    e.auth = Some(a);
    match convert("github", &e).unwrap().config {
        McpTransportConfig::Http { auth: Some(McpHttpAuthConfig::OAuth(o)), .. } => {
            assert_eq!(o.provider.as_deref(), Some("github"));
            assert_eq!((o.issuer, o.resource, o.client_id, o.client_secret_env), (None, None, None, None));
            assert!(o.scopes.is_empty());
        }
        other => panic!("expected http config, got {:?}", other),
    }
}

#[test]
fn http_config_accepts_generic_oauth_auth() {
    let mut e = entry();
    e.url = Some("https://mcp.notion.com/mcp".into());
    let mut a = auth(Some("oauth"));
    a.issuer = Some("https://mcp.notion.com".into());
    a.resource = Some("https://mcp.notion.com/mcp".into());
    a.client_id = Some("client".into());
    a.client_secret_env = Some("NOTION_SECRET".into());
    a.scopes = vec!["read".into(), "write".into()];
    e.auth = Some(a);
    match convert("notion", &e).unwrap().config {
        McpTransportConfig::Http { auth: Some(McpHttpAuthConfig::OAuth(o)), .. } => {
            assert_eq!(o.provider.as_deref(), Some("notion"));
            assert_eq!(o.issuer.as_deref(), Some("https://mcp.notion.com"));
            assert_eq!(o.resource.as_deref(), Some("https://mcp.notion.com/mcp"));
            assert_eq!(o.client_id.as_deref(), Some("client"));
            assert_eq!(o.client_secret_env.as_deref(), Some("NOTION_SECRET"));
            assert_eq!(o.scopes, vec!["read", "write"]);
        }
        other => panic!("expected http config, got {:?}", other),
    }
}

#[test]
fn http_config_accepts_bearer_header_auth_without_type() {
    let mut e = entry();
    e.url = Some("https://mcp.figma.com/mcp".into());
    let mut a = auth(None);
    a.bearer = Some("figd_token".into());
    a.header = Some("X-Figma-Token".into());
    e.auth = Some(a);
    match convert("figma", &e).unwrap().config {
        McpTransportConfig::Http { headers, auth, .. } => {
            assert_eq!(headers.get("X-Figma-Token").map(String::as_str), Some("figd_token"));
            assert!(auth.is_none());
        }
        other => panic!("expected http config, got {:?}", other),
    }
}

#[test]
fn entries_without_a_way_to_reach_them_are_refused() {
    let e = convert("x", &entry()).unwrap_err();
    assert_eq!(e.text(), "MCP server 'x' must have either 'command' (stdio) or 'url' (http)");
    let mut e = entry();
    e.url = Some("u".into());
    e.auth = Some(auth(Some("basic")));
    match convert("x", &e).unwrap_err() {
        McpConfigError::UnsupportedAuth { name, kind } => assert_eq!((name.as_str(), kind.as_str()), ("x", "basic")),
        other => panic!("unexpected {:?}", other),
    }
}

#[test]
fn commands_are_expanded() {
    let mut e = entry();
    e.command = Some("~/bin/serve".into());
    e.args = Some(vec!["--token=${TOKEN}".into(), "${NONE:-d}".into()]);
    e.env = Some(vars(&[("K", "${TOKEN}")]));
    e.auto_approve = vec!["q".into()];
    let c = convert("s", &e).unwrap();
    assert_eq!(c.auto_approve, vec!["q"]);
    match c.config {
        McpTransportConfig::Stdio { command, args, env, timeout_ms } => {
            assert_eq!(command, "/home/u/bin/serve");
            assert_eq!(args, vec!["--token=t0", "d"]);
            assert_eq!(env.get("K").map(String::as_str), Some("t0"));
            assert_eq!(timeout_ms, None);
        }
        other => panic!("unexpected {:?}", other),
    }
}

#[test]
fn the_project_replaces_and_switches_off() {
    let list = |names: &[(&str, bool)], source| {
        let entries = names
            .iter()
            .map(|(n, disabled)| {
                let mut e = entry();
                e.command = Some("c".into());
                e.disabled = *disabled;
                (n.to_string(), e)
            })
            .collect();
        load_config_file(&entries, source, &surroundings()).unwrap()
    };
    let user = list(&[("b", false), ("a", false), ("c", false)], McpConfigSource::User);
    let project = list(&[("c", true), ("b", false)], McpConfigSource::Project);
    let all = load_mcp_config(user, project);
    let shown: Vec<(&str, &str)> = all.iter().map(|c| (c.name.as_str(), c.source.as_str())).collect();
    assert_eq!(shown, vec![("a", "global"), ("b", "project")]);
}

#[test]
fn merge_http_oauth_creates_mcp_servers() {
    let url = "https://api.githubcopilot.com/mcp/";
    let text = merge_http_oauth_mcp_server_into_json_file(None, "github", url, "github").unwrap();
    let v = parse_json(&text).unwrap();
    let p = at(&v, &["mcpServers", "github"]);
    assert_eq!(p.str_at("url"), Some("https://api.githubcopilot.com/mcp/"));
    assert_eq!(at(p, &["auth"]).str_at("type"), Some("oauth"));
    assert_eq!(at(p, &["auth"]).str_at("provider"), Some("github"));
}

#[test]
fn add_auto_approved_tool_writes_into_project_mcp_json() {
    let before = r#"{"mcpServers":{"srv":{"command":"x"}}}"#;
    let (target, text) = add_auto_approved_tool(Some(before), None, "srv", "query");
    assert_eq!(target, ConfigTarget::Project);
    let text = text.expect("write ok");
    let written = parse_json(&text).unwrap();
    let arr = at(&written, &["mcpServers", "srv", "autoApprove"]).as_array().expect("autoApprove array");
    assert!(arr.iter().any(|v| v.as_str() == Some("query")));

    let (_, text) = add_auto_approved_tool(Some(&text), None, "srv", "query");
    let again = parse_json(&text.unwrap()).unwrap();
    assert_eq!(at(&again, &["mcpServers", "srv", "autoApprove"]).as_array().unwrap().len(), 1);
}

#[test]
fn unknown_servers_are_noted_for_the_user() {
    let (target, text) = add_auto_approved_tool(Some("{}"), None, "srv", "q");
    assert_eq!(target, ConfigTarget::User);
    let doc = parse_json(&text.unwrap()).unwrap();
    assert!(document_defines(&doc, "srv"));
    assert!(!document_defines(&doc, "other"));
    assert_eq!(at(&doc, &["mcpServers", "srv", "autoApprove"]).as_array().unwrap().len(), 1);
}

#[test]
fn approvals_need_the_right_shapes() {
    let approve = |text: &str| approve_tool(parse_json(text).unwrap(), "s", "t");
    assert!(matches!(approve("[]"), Err(ConfigFileError::NotAnObject)));
    assert!(matches!(
        approve(r#"{"mcpServers":{"s":{"autoApprove":"x"}}}"#),
        Err(ConfigFileError::NotAnArray)
    ));
    assert!(matches!(approve(r#"{"mcpServers":{"s":5}}"#), Err(ConfigFileError::EntryNotAnObject { .. })));
}

#[test]
fn numbers_that_nobody_set_are_kept() {
    let before = r#"{"n":7.69207786449822e-11,"mcpServers":{"s":{"limit":-5,"ratio":0.1}},"a":[1e300,18446744073709551615]}"#;
    let read: serde_json::Value = serde_json::from_str(before).unwrap();
    let text = merge_stdio_mcp_server_into_json_file(Some(before), "new", "uv", &[]).unwrap();
    assert!(text.contains(&format!("\"n\": {}\n", read["n"])));
    assert!(text.contains("\"limit\": -5"));
    assert!(text.contains("\"ratio\": 0.1"));
    assert!(text.contains("1e+300") || text.contains("1e300"));
    assert!(text.contains("18446744073709551615"));
    let (_, text) = add_auto_approved_tool(Some(before), None, "s", "q");
    assert!(text.unwrap().contains(&format!("\"n\": {}", read["n"])));
}

#[test]
fn written_documents_are_in_the_order_of_their_keys() {
    let text = merge_http_oauth_mcp_server_into_json_file(Some(r#"{"z":1,"a":2,"z":3}"#), "k", "u", "p").unwrap();
    assert_eq!(
        text,
        "{\n  \"a\": 2,\n  \"mcpServers\": {\n    \"k\": {\n      \"auth\": {\n        \"provider\": \"p\",\n        \"type\": \"oauth\"\n      },\n      \"url\": \"u\"\n    }\n  },\n  \"z\": 3\n}\n"
    );
    let text = merge_stdio_mcp_server_into_json_file(None, "k", "c", &["x".into()]).unwrap();
    assert_eq!(
        text,
        "{\n  \"mcpServers\": {\n    \"k\": {\n      \"args\": [\n        \"x\"\n      ],\n      \"command\": \"c\"\n    }\n  }\n}\n"
    );
}

#[test]
fn noting_a_tool_again_writes_the_same() {
    let project = r#"{"mcpServers":{"srv":{"command":"x","autoApprove":["a"]},"b":{}},"note":[1,null]}"#;
    let (target, first) = add_auto_approved_tool(Some(project), Some("{}"), "srv", "q");
    assert_eq!(target, ConfigTarget::Project);
    let first = first.unwrap();
    let (target, second) = add_auto_approved_tool(Some(&first), Some("{}"), "srv", "q");
    assert_eq!(target, ConfigTarget::Project);
    assert_eq!(second.unwrap(), first);
    let (target, third) = add_auto_approved_tool(None, None, "srv", "q");
    assert_eq!(target, ConfigTarget::User);
    let third = third.unwrap();
    let (target, fourth) = add_auto_approved_tool(None, Some(&third), "srv", "q");
    assert_eq!(target, ConfigTarget::User);
    assert_eq!(fourth.unwrap(), third);
}

#[test]
fn deep_documents_are_written_so_that_they_are_read() {
    let deep = |n: usize| format!("{}{}", "[".repeat(n), "]".repeat(n));
    assert!(parse_json(&deep(127)).is_some());
    assert!(parse_json(&deep(128)).is_none());
    let before = format!(r#"{{"deep":{},"x":[0.1,1e300,-0.0,2.5],"mcpServers":{{"s":{{}}}}}}"#, deep(126));
    let (_, first) = add_auto_approved_tool(Some(&before), None, "s", "q");
    let first = first.unwrap();
    let read: serde_json::Value = serde_json::from_str(&first).unwrap();
    let was: serde_json::Value = serde_json::from_str(&before).unwrap();
    assert_eq!(read["deep"], was["deep"]);
    assert_eq!(read["x"], was["x"]);
    let (_, second) = add_auto_approved_tool(Some(&first), None, "s", "q");
    assert_eq!(second.unwrap(), first);
    let merged = merge_stdio_mcp_server_into_json_file(Some(&before), "t", "c", &[]).unwrap();
    let read: serde_json::Value = serde_json::from_str(&merged).unwrap();
    assert_eq!(read["deep"], was["deep"]);
    assert_eq!(read["mcpServers"]["t"]["command"], "c");
    assert_eq!(merge_stdio_mcp_server_into_json_file(Some(&merged), "t", "c", &[]).unwrap(), merged);
}
