use document_symbols::settings_json::JsonValue;
use document_symbols::settings_migration::migrate_tool_permission_defaults;

fn obj(entries: Vec<(&str, JsonValue)>) -> JsonValue {
    JsonValue::Object(entries.into_iter().map(|(k, v)| (k.to_string(), v)).collect())
}

fn server_modes() -> Vec<(String, String)> {
    vec![
        ("assistant".to_string(), "bypassPermissions".to_string()),
        ("codex".to_string(), "full-access".to_string()),
    ]
}

fn migrate(settings: &mut JsonValue) {
    migrate_tool_permission_defaults(settings, &server_modes());
}

fn text(s: &str) -> JsonValue {
    JsonValue::String(s.to_string())
}

fn get<'a>(v: &'a JsonValue, key: &str) -> Option<&'a JsonValue> {
    match v {
        JsonValue::Object(m) => m.iter().find(|(k, _)| k == key).map(|(_, v)| v),
        _ => None,
    }
}

fn get_path<'a>(v: &'a JsonValue, path: &[&str]) -> Option<&'a JsonValue> {
    let mut current = v;
    for key in path {
        current = get(current, key)?;
    }
    Some(current)
}

fn as_text(v: Option<&JsonValue>) -> Option<&str> {
    match v {
        Some(JsonValue::String(s)) => Some(s.as_str()),
        _ => None,
    }
}

#[test]
fn always_allow_true_becomes_default_allow_and_server_modes() {
    let mut settings = obj(vec![(
        "agent",
        obj(vec![("always_allow_tool_actions", JsonValue::Bool(true))]),
    )]);
    migrate(&mut settings);
    assert!(get_path(&settings, &["agent", "always_allow_tool_actions"]).is_none());
    assert_eq!(as_text(get_path(&settings, &["agent", "tool_permissions", "default"])), Some("allow"));
    assert_eq!(
        as_text(get_path(&settings, &["agent_servers", "assistant", "default_mode"])),
        Some("bypassPermissions")
    );
    assert_eq!(as_text(get_path(&settings, &["agent_servers", "codex", "default_mode"])), Some("full-access"));
}

#[test]
fn always_allow_false_is_dropped_without_other_changes() {
    let mut settings = obj(vec![(
        "agent",
        obj(vec![("always_allow_tool_actions", JsonValue::Bool(false)), ("model", text("m"))]),
    )]);
    migrate(&mut settings);
    assert!(get_path(&settings, &["agent", "always_allow_tool_actions"]).is_none());
    assert!(get_path(&settings, &["agent", "tool_permissions"]).is_none());
    assert!(get(&settings, "agent_servers").is_none());
    assert_eq!(as_text(get_path(&settings, &["agent", "model"])), Some("m"));
}

#[test]
fn non_boolean_always_allow_is_kept() {
    let mut settings = obj(vec![("agent", obj(vec![("always_allow_tool_actions", text("yes"))]))]);
    migrate(&mut settings);
    assert_eq!(as_text(get_path(&settings, &["agent", "always_allow_tool_actions"])), Some("yes"));
}

#[test]
fn existing_default_mode_is_renamed_and_kept() {
    let mut settings = obj(vec![(
        "agent",
        obj(vec![
            ("always_allow_tool_actions", JsonValue::Bool(true)),
            (
                "tool_permissions",
                obj(vec![
                    ("default_mode", text("confirm")),
                    ("tools", obj(vec![("terminal", obj(vec![("default_mode", text("deny"))]))])),
                ]),
            ),
        ]),
    )]);
    migrate(&mut settings);
    assert_eq!(as_text(get_path(&settings, &["agent", "tool_permissions", "default"])), Some("confirm"));
    assert!(get_path(&settings, &["agent", "tool_permissions", "default_mode"]).is_none());
    assert_eq!(
        as_text(get_path(&settings, &["agent", "tool_permissions", "tools", "terminal", "default"])),
        Some("deny")
    );
}

#[test]
fn non_object_tool_permissions_are_replaced() {
    let mut settings = obj(vec![(
        "agent",
        obj(vec![("always_allow_tool_actions", JsonValue::Bool(true)), ("tool_permissions", JsonValue::Null)]),
    )]);
    migrate(&mut settings);
    assert_eq!(as_text(get_path(&settings, &["agent", "tool_permissions", "default"])), Some("allow"));
}

#[test]
fn profiles_are_migrated_too() {
    let mut settings = obj(vec![(
        "agent",
        obj(vec![(
            "profiles",
            obj(vec![("write", obj(vec![("always_allow_tool_actions", JsonValue::Bool(true))]))]),
        )]),
    )]);
    migrate(&mut settings);
    assert_eq!(
        as_text(get_path(&settings, &["agent", "profiles", "write", "tool_permissions", "default"])),
        Some("allow")
    );
    // only the agent's own flag sets the server modes
    assert!(get(&settings, "agent_servers").is_none());
}

#[test]
fn existing_server_mode_is_not_overwritten() {
    let mut settings = obj(vec![
        ("agent", obj(vec![("always_allow_tool_actions", JsonValue::Bool(true))])),
        ("agent_servers", obj(vec![("assistant", obj(vec![("default_mode", text("plan"))]))])),
    ]);
    migrate(&mut settings);
    assert_eq!(as_text(get_path(&settings, &["agent_servers", "assistant", "default_mode"])), Some("plan"));
    assert_eq!(as_text(get_path(&settings, &["agent_servers", "codex", "default_mode"])), Some("full-access"));
}

#[test]
fn non_object_settings_are_left_alone() {
    let mut settings = JsonValue::Array(vec![JsonValue::Number("1".to_string())]);
    migrate(&mut settings);
    assert!(matches!(settings, JsonValue::Array(ref a) if a.len() == 1));
}
