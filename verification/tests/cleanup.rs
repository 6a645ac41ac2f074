use clipboard_utils::cleanup::{
    apply_cleanup_rules, parse_cleanup_rules, read_cleanup_rule, CleanupRule,
};
use clipboard_utils::policies::{
    app_cleanup_policy_matches, app_id_matches_process_path, cut_between_slashes,
    default_policy_action, default_policy_content_types, default_policy_enabled,
    executable_name_matches, normalize_executable_name, parse_app_cleanup_policies,
    AppCleanupPolicy,
};

fn text_of(value: &serde_json::Value, key: &str) -> String {
    value.get(key).and_then(|v| v.as_str()).unwrap_or("").to_string()
}

fn read_policies(raw: &str) -> Option<Vec<AppCleanupPolicy>> {
    let value = serde_json::from_str::<serde_json::Value>(raw).ok()?;
    let list = value.as_array()?;
    let mut policies = Vec::new();
    for item in list {
        policies.push(AppCleanupPolicy {
            id: text_of(item, "id"),
            enabled: item
                .get("enabled")
                .and_then(|v| v.as_bool())
                .unwrap_or(default_policy_enabled()),
            app_name: text_of(item, "appName"),
            app_path: text_of(item, "appPath"),
            action: item
                .get("action")
                .and_then(|v| v.as_str())
                .map(|s| s.to_string())
                .unwrap_or(default_policy_action()),
            content_types: match item.get("contentTypes").and_then(|v| v.as_array()) {
                Some(kinds) => kinds
                    .iter()
                    .map(|k| k.as_str().unwrap_or("").to_string())
                    .collect(),
                None => default_policy_content_types(),
            },
            cleanup_rules: text_of(item, "cleanupRules"),
        });
    }
    Some(policies)
}

fn policy(name: &str, path: &str, action: &str, kinds: &[&str]) -> AppCleanupPolicy {
    AppCleanupPolicy {
        id: "1".to_string(),
        enabled: true,
        app_name: name.to_string(),
        app_path: path.to_string(),
        action: action.to_string(),
        content_types: kinds.iter().map(|k| k.to_string()).collect(),
        cleanup_rules: String::new(),
    }
}

#[test]
fn cleanup_rules_parse_and_apply_replacements() {
    let rules = parse_cleanup_rules(
        r"(?i)token\s*:\s*\S+ => token: [REDACTED]
\b1[3-9]\d{9}\b => [PHONE]",
    );

    let cleaned = apply_cleanup_rules("token: abc123 13812345678", &rules);

    assert_eq!(cleaned, "token: [REDACTED] [PHONE]");
}

#[test]
fn lines_without_a_rule_are_passed_over() {
    let rules = parse_cleanup_rules("\n# a => b\nno arrow\n => empty\n( => broken\n x => y ");
    assert_eq!(
        rules,
        vec![CleanupRule { pattern: "x".to_string(), replacement: "y".to_string() }]
    );
}

#[test]
fn a_rule_is_read_whether_its_pattern_compiles_or_not() {
    assert_eq!(
        read_cleanup_rule("( => a=>b"),
        Some(CleanupRule { pattern: "(".to_string(), replacement: "a=>b".to_string() })
    );
    assert_eq!(read_cleanup_rule("# ( => x"), None);
    assert_eq!(read_cleanup_rule("=> x"), None);
    assert_eq!(read_cleanup_rule("x = y"), None);
}

#[test]
fn escapes_in_replacements_are_read() {
    let rules = parse_cleanup_rules(r", => \n");
    assert_eq!(apply_cleanup_rules("a,b", &rules), "a\nb");
    let rules = parse_cleanup_rules(r", => \t\r");
    assert_eq!(apply_cleanup_rules("a,b", &rules), "a\t\rb");
    let rules = parse_cleanup_rules(", => ");
    assert_eq!(apply_cleanup_rules("a,b", &rules), "ab");
}

#[test]
fn replacements_refer_to_groups() {
    let rules = parse_cleanup_rules(r"(\w+)@(\w+) => $2 at ${1}");
    assert_eq!(apply_cleanup_rules("me@home", &rules), "home at me");
}

#[test]
fn rules_apply_one_after_the_other() {
    let first = parse_cleanup_rules("a => b");
    let second = parse_cleanup_rules("b => c");
    let both = parse_cleanup_rules("a => b\nb => c");
    let stepwise = apply_cleanup_rules(&apply_cleanup_rules("aab", &first), &second);
    assert_eq!(stepwise, "ccc");
    assert_eq!(apply_cleanup_rules("aab", &both), "ccc");
    assert_eq!(apply_cleanup_rules("aab", &[]), "aab");
}

#[test]
fn app_cleanup_policy_parse_filters_disabled_or_unbound_items() {
    let policies = parse_app_cleanup_policies(read_policies(
        r#"[
            {"id":"1","enabled":true,"appName":"WeChat","contentTypes":["text"]},
            {"id":"2","enabled":false,"appName":"Slack","contentTypes":["text"]},
            {"id":"3","enabled":true,"contentTypes":["text"]}
        ]"#,
    ));

    assert_eq!(policies.len(), 1);
    assert_eq!(policies[0].id, "1");
}

#[test]
fn policies_that_cannot_be_read_are_none() {
    assert_eq!(parse_app_cleanup_policies(read_policies("{")), Vec::new());
    assert_eq!(parse_app_cleanup_policies(None), Vec::new());
}

#[test]
fn policies_keep_their_order() {
    let kept = parse_app_cleanup_policies(Some(vec![
        policy("b", "", "clean", &[]),
        policy(" ", " ", "clean", &[]),
        policy("", "a", "clean", &[]),
    ]));
    assert_eq!(kept, vec![policy("b", "", "clean", &[]), policy("", "a", "clean", &[])]);
}

#[test]
fn policies_have_defaults() {
    let read = read_policies(r#"[{"appName":"x"}]"#).unwrap();
    assert_eq!(
        read,
        vec![AppCleanupPolicy {
            id: String::new(),
            enabled: true,
            app_name: "x".to_string(),
            app_path: String::new(),
            action: "clean".to_string(),
            content_types: vec![
                "text".to_string(),
                "code".to_string(),
                "url".to_string(),
                "rich_text".to_string(),
                "image".to_string(),
                "file".to_string(),
                "video".to_string(),
            ],
            cleanup_rules: String::new(),
        }]
    );
}

#[test]
fn app_cleanup_policy_match_prefers_path_and_respects_content_type() {
    let policy = AppCleanupPolicy {
        id: "1".to_string(),
        enabled: true,
        app_name: "WeChat".to_string(),
        app_path: "C:\\Program Files\\Tencent\\WeChat.exe".to_string(),
        action: "ignore".to_string(),
        content_types: vec!["text".to_string(), "url".to_string()],
        cleanup_rules: String::new(),
    };

    assert!(app_cleanup_policy_matches(
        &policy,
        "Different Name",
        Some("C:\\Program Files\\Tencent\\WeChat.exe"),
        "text",
    ));
    assert!(!app_cleanup_policy_matches(
        &policy,
        "WeChat",
        Some("C:\\Program Files\\Tencent\\WeChat.exe"),
        "image",
    ));
}

#[test]
fn app_cleanup_policy_match_accepts_executable_name_variant() {
    let policy = AppCleanupPolicy {
        id: "1".to_string(),
        enabled: true,
        app_name: "Codex".to_string(),
        app_path: String::new(),
        action: "clean".to_string(),
        content_types: vec!["text".to_string()],
        cleanup_rules: String::new(),
    };

    assert!(app_cleanup_policy_matches(
        &policy,
        "Codex.exe",
        Some(
            "C:\\Program Files\\WindowsApps\\OpenAI.Codex_26.305.950.0_x64__2p2nqsd0c76g0\\app\\Codex.exe",
        ),
        "text",
    ));
}

#[test]
fn app_cleanup_policy_match_accepts_windows_app_id_variant() {
    let policy = AppCleanupPolicy {
        id: "1".to_string(),
        enabled: true,
        app_name: "Codex".to_string(),
        app_path: "OpenAI.Codex_2p2nqsd0c76g0!App".to_string(),
        action: "clean".to_string(),
        content_types: vec!["text".to_string()],
        cleanup_rules: String::new(),
    };

    assert!(app_cleanup_policy_matches(
        &policy,
        "Codex.exe",
        Some(
            "C:\\Program Files\\WindowsApps\\OpenAI.Codex_26.305.950.0_x64__2p2nqsd0c76g0\\app\\Codex.exe",
        ),
        "text",
    ));
}

#[test]
fn policies_match_by_regular_expression() {
    let by_name = policy("/^We.*t$/", "", "clean", &["text"]);
    assert!(app_cleanup_policy_matches(&by_name, "WeChat", None, "text"));
    assert!(!app_cleanup_policy_matches(&by_name, "Slack", None, "text"));
    let by_path = policy("", "/tencent/", "clean", &["text"]);
    assert!(app_cleanup_policy_matches(&by_path, "x", Some("/opt/tencent/y"), "text"));
    assert!(!app_cleanup_policy_matches(&by_path, "x", Some("/opt/other/y"), "text"));
    let broken = policy("/(/", "", "clean", &["text"]);
    assert!(!app_cleanup_policy_matches(&broken, "x", None, "text"));
    assert!(app_cleanup_policy_matches(&broken, "/(/", None, "text"));
}

#[test]
fn policies_without_kinds_ignore_everything_or_do_nothing() {
    let ignoring = policy("WeChat", "", "IGNORE", &[]);
    assert!(app_cleanup_policy_matches(&ignoring, "wechat", None, "video"));
    let cleaning = policy("WeChat", "", "clean", &[]);
    assert!(!app_cleanup_policy_matches(&cleaning, "WeChat", None, "video"));
}

#[test]
fn kinds_match_whatever_their_case() {
    let p = policy("WeChat", "", "clean", &["Text"]);
    assert!(app_cleanup_policy_matches(&p, "WeChat", None, "tEXT"));
}

#[test]
fn the_path_of_a_policy_can_name_the_application() {
    let p = policy("", "D:\\bin\\wechat.exe", "clean", &["text"]);
    assert!(app_cleanup_policy_matches(&p, "WeChat", None, "text"));
    assert!(!app_cleanup_policy_matches(&p, "", None, "text"));
    assert!(!app_cleanup_policy_matches(&policy(" ", " ", "clean", &["text"]), "", None, "text"));
}

#[test]
fn program_names_are_normalized() {
    assert_eq!(normalize_executable_name(" C:\\Tools/My App.EXE "), Some("my app".to_string()));
    assert_eq!(normalize_executable_name("app"), Some("app".to_string()));
    assert_eq!(normalize_executable_name("C:\\Tools\\"), None);
    assert_eq!(normalize_executable_name(".exe"), None);
    assert_eq!(normalize_executable_name("  "), None);
}

#[test]
fn programs_match_in_any_directory_with_or_without_extension() {
    assert!(executable_name_matches("app", "C:\\x\\APP.exe"));
    assert!(executable_name_matches("/usr/bin/app", "app"));
    assert!(executable_name_matches("app", "/usr/bin/app"));
    assert!(!executable_name_matches("app", "app2"));
    assert!(!executable_name_matches("", ""));
}

#[test]
fn packages_match_by_name_and_publisher() {
    assert!(app_id_matches_process_path("Vendor.App_abc!Main", "C:/Apps/vendor.app_1.0__ABC/x"));
    assert!(!app_id_matches_process_path("Vendor.App_abc!Main", "C:/Apps/vendor.app_1.0"));
    assert!(!app_id_matches_process_path("Vendor.App_abc", "C:/Apps/vendor.app_1.0__abc"));
    assert!(!app_id_matches_process_path("Vendor!Main", "C:/Apps/vendor"));
    assert!(!app_id_matches_process_path("_abc!Main", "C:/Apps/abc"));
    assert!(!app_id_matches_process_path("Vendor_abc!Main", " "));
}

#[test]
fn regular_expressions_stand_between_slashes() {
    assert_eq!(cut_between_slashes("/ab/"), Some("ab".to_string()));
    assert_eq!(cut_between_slashes("//"), Some(String::new()));
    assert_eq!(cut_between_slashes("/"), None);
    assert_eq!(cut_between_slashes("/ab"), None);
    assert_eq!(cut_between_slashes("ab"), None);
}
