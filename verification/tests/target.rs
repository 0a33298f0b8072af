use sshc::parser::ParseHelper;

#[test]
fn uri_host_and_port_with_fallback_user() {
    let params = ParseHelper::uri_with_user("db:2222", "carol".to_string());
    assert_eq!(
        params,
        vec![
            ("User".to_string(), Some("carol".to_string())),
            ("HostName".to_string(), Some("db".to_string())),
            ("Port".to_string(), Some("2222".to_string())),
        ]
    );
}

#[test]
fn uri_explicit_user_defaults_port() {
    let params = ParseHelper::uri_with_user("root@db", "carol".to_string());
    assert_eq!(
        params,
        vec![
            ("User".to_string(), Some("root".to_string())),
            ("HostName".to_string(), Some("db".to_string())),
            ("Port".to_string(), Some("22".to_string())),
        ]
    );
}

#[test]
fn uri_user_host_and_port() {
    let params = ParseHelper::uri_with_user(" alice@web:8022 ", "carol".to_string());
    assert_eq!(
        params,
        vec![
            ("User".to_string(), Some("alice".to_string())),
            ("HostName".to_string(), Some("web".to_string())),
            ("Port".to_string(), Some("8022".to_string())),
        ]
    );
}

#[test]
fn uri_uses_current_os_user_as_fallback() {
    let params = ParseHelper::uri("somehost".to_string());
    assert_eq!(params.len(), 3);
    assert_eq!(params[0].0, "User");
    assert!(params[0].1.is_some());
    assert_eq!(params[1], ("HostName".to_string(), Some("somehost".to_string())));
    assert_eq!(params[2], ("Port".to_string(), Some("22".to_string())));
}

#[test]
fn options_split_on_equals() {
    let params = ParseHelper::options(vec![
        "Compression=yes".to_string(),
        "BatchMode".to_string(),
        "ProxyCommand=".to_string(),
    ]);
    assert_eq!(
        params,
        vec![
            ("Compression".to_string(), Some("yes".to_string())),
            ("BatchMode".to_string(), None),
            ("ProxyCommand".to_string(), Some("".to_string())),
        ]
    );
}

#[test]
fn options_empty_input_gives_empty_output() {
    let params = ParseHelper::options(Vec::new());
    assert_eq!(params, Vec::new());
}
