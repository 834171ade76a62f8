use es_license_consumption::config::{
    default_verify_certs, extract_port_from_url, has_written_port, port_from_parse,
    sanitize_host_port, sort_by_alias,
    validate_entry, Auth, ClusterConfig, ConfigError, HostPort, PortChoice, RawClusterEntry,
};

/// An entry as the configuration file would give it.
fn entry(host: &str, port: Option<u16>) -> RawClusterEntry {
    RawClusterEntry {
        host: host.to_string(),
        port,
        username: None,
        password: None,
        api_key: None,
        verify_certs: default_verify_certs(),
        ca_certs: None,
    }
}

/// Validate a single entry named `my_cluster`, non-interactively, the way the
/// configuration loader does, and sort the result.
fn parse_one(e: RawClusterEntry) -> Result<Vec<ClusterConfig>, ConfigError> {
    let ca_exists = match &e.ca_certs {
        Some(p) => std::path::Path::new(p).exists(),
        None => false,
    };
    let c = validate_entry("my_cluster".to_string(), e, &PortChoice::NonInteractive, ca_exists)?;
    Ok(sort_by_alias(vec![c]))
}

#[test]
fn valid_basic_auth() {
    let mut e = entry("https://localhost", Some(9200));
    e.username = Some("user".to_string());
    e.password = Some("pass".to_string());
    let configs = parse_one(e).unwrap();
    assert_eq!(configs.len(), 1);
    assert!(matches!(configs[0].auth, Auth::Basic { .. }));
}

#[test]
fn valid_api_key() {
    let mut e = entry("https://localhost", Some(9200));
    e.api_key = Some("mykey123".to_string());
    let configs = parse_one(e).unwrap();
    assert_eq!(configs.len(), 1);
    assert!(matches!(configs[0].auth, Auth::ApiKey(_)));
}

#[test]
fn api_key_priority_over_basic() {
    let mut e = entry("https://localhost", Some(9200));
    e.api_key = Some("mykey123".to_string());
    e.username = Some("user".to_string());
    e.password = Some("pass".to_string());
    let configs = parse_one(e).unwrap();
    assert_eq!(configs.len(), 1);
    assert!(matches!(configs[0].auth, Auth::ApiKey(_)));
}

#[test]
fn missing_auth_fails() {
    let e = entry("https://localhost", Some(9200));
    assert!(parse_one(e).is_err());
}

#[test]
fn username_without_password_fails() {
    let mut e = entry("https://localhost", Some(9200));
    e.username = Some("user".to_string());
    assert!(parse_one(e).is_err());
}

#[test]
fn missing_pem_file_fails() {
    let mut e = entry("https://localhost", Some(9200));
    e.api_key = Some("key".to_string());
    e.ca_certs = Some("/nonexistent/path/cert.pem".to_string());
    assert!(parse_one(e).is_err());
}

#[test]
fn trailing_slash_stripped() {
    let mut e = entry("https://example.com/", Some(9200));
    e.api_key = Some("key".to_string());
    let configs = parse_one(e).unwrap();
    assert_eq!(configs[0].host, "https://example.com");
}

#[test]
fn embedded_port_extracted_when_port_field_absent() {
    let mut e = entry("https://example.com:9200", None);
    e.api_key = Some("key".to_string());
    let configs = parse_one(e).unwrap();
    assert_eq!(configs[0].host, "https://example.com");
    assert_eq!(configs[0].port, 9200);
}

#[test]
fn embedded_port_matches_port_field() {
    let mut e = entry("https://example.com:9200", Some(9200));
    e.api_key = Some("key".to_string());
    let configs = parse_one(e).unwrap();
    assert_eq!(configs[0].host, "https://example.com");
    assert_eq!(configs[0].port, 9200);
}

#[test]
fn embedded_port_conflicts_with_port_field_non_interactive() {
    let mut e = entry("https://example.com:9300", Some(9200));
    e.api_key = Some("key".to_string());
    assert!(parse_one(e).is_err());
}

// ── Further cases ────────────────────────────────────────────────────────────

fn keyed(host: &str, port: Option<u16>) -> RawClusterEntry {
    let mut e = entry(host, port);
    e.api_key = Some("key".to_string());
    e
}

#[test]
fn url_port_is_split_off() {
    let (host, port) = extract_port_from_url("https://example.com:9200");
    assert_eq!(host, "https://example.com");
    assert_eq!(port, Some(9200));
    let (host, port) = extract_port_from_url("https://example.com:9200/path/");
    assert_eq!(host, "https://example.com/path");
    assert_eq!(port, Some(9200));
    let (host, port) = extract_port_from_url("https://example.com");
    assert_eq!(host, "https://example.com");
    assert_eq!(port, None);
    let (host, port) = extract_port_from_url("not a url");
    assert_eq!(host, "not a url");
    assert_eq!(port, None);
}

#[test]
fn missing_port_is_reported() {
    let err = validate_entry("c1".to_string(), keyed("https://example.com", None), &PortChoice::NonInteractive, false)
        .unwrap_err();
    assert!(matches!(err, ConfigError::MissingPort { .. }));
    assert_eq!(
        err.message(),
        "Cluster 'c1': 'port' is required when host does not contain an embedded port"
    );
}

#[test]
fn conflict_message_names_both_ports() {
    let err = validate_entry("c1".to_string(), keyed("https://example.com:9300", Some(9200)), &PortChoice::NonInteractive, false)
        .unwrap_err();
    assert!(matches!(err, ConfigError::PortConflict { url_port: 9300, field_port: 9200, .. }));
    assert_eq!(
        err.message(),
        "Cluster 'c1': port conflict \u{2014} host URL contains port 9300 but port field is 9200. Fix cluster.yml to resolve."
    );
}

#[test]
fn conflict_answers_pick_a_port() {
    let url = validate_entry("c1".to_string(), keyed("https://example.com:9300", Some(9200)), &PortChoice::Answer("\n".to_string()), false)
        .unwrap();
    assert_eq!((url.host.as_str(), url.port), ("https://example.com", 9300));
    let url = validate_entry("c1".to_string(), keyed("https://example.com:9300", Some(9200)), &PortChoice::Answer(" 1 \n".to_string()), false)
        .unwrap();
    assert_eq!((url.host.as_str(), url.port), ("https://example.com", 9300));
    let field = validate_entry("c1".to_string(), keyed("https://example.com:9300/", Some(9200)), &PortChoice::Answer("2\n".to_string()), false)
        .unwrap();
    assert_eq!((field.host.as_str(), field.port), ("https://example.com", 9200));
    let err = validate_entry("c1".to_string(), keyed("https://example.com:9300", Some(9200)), &PortChoice::Answer(" 3\n".to_string()), false)
        .unwrap_err();
    assert!(matches!(&err, ConfigError::InvalidPortChoice { choice, .. } if choice == "3"));
    assert_eq!(err.message(), "Cluster 'c1': invalid choice '3' for port conflict resolution");
}

#[test]
fn sanitize_reports_conflict_sides() {
    match sanitize_host_port("c1", "https://example.com:9300//", Some(9200)).unwrap() {
        HostPort::Conflict { clean_host, url_port, field_port } => {
            assert_eq!(clean_host, "https://example.com");
            assert_eq!(url_port, 9300);
            assert_eq!(field_port, 9200);
        }
        other => panic!("expected a conflict, got {:?}", other),
    }
}

#[test]
fn empty_credentials_count_as_absent() {
    let mut e = keyed("https://localhost", Some(9200));
    e.api_key = Some(String::new());
    e.username = Some("user".to_string());
    e.password = Some(String::new());
    let err = validate_entry("c1".to_string(), e, &PortChoice::NonInteractive, false).unwrap_err();
    assert!(matches!(err, ConfigError::MissingPassword { .. }));
    assert_eq!(err.message(), "Cluster 'c1': 'username' is set but 'password' is missing");

    let mut e = entry("https://localhost", Some(9200));
    e.username = Some(String::new());
    let err = validate_entry("c1".to_string(), e, &PortChoice::NonInteractive, false).unwrap_err();
    assert_eq!(err.message(), "Cluster 'c1': requires either 'api_key' or 'username'/'password'");
}

#[test]
fn ca_certs_checked_only_when_given() {
    let mut e = keyed("https://localhost", Some(9200));
    e.ca_certs = Some("/etc/ca.pem".to_string());
    let err = validate_entry("c1".to_string(), e, &PortChoice::NonInteractive, false).unwrap_err();
    assert_eq!(err.message(), "Cluster 'c1': ca_certs file not found: /etc/ca.pem");
    let mut e = keyed("https://localhost", Some(9200));
    e.ca_certs = Some("/etc/ca.pem".to_string());
    e.verify_certs = false;
    let c = validate_entry("c1".to_string(), e, &PortChoice::NonInteractive, true).unwrap();
    assert_eq!(c.ca_certs.as_deref(), Some("/etc/ca.pem"));
    assert!(!c.verify_certs);
    assert_eq!(c.alias, "c1");
}

#[test]
fn configs_sorted_by_alias() {
    let mk = |alias: &str| validate_entry(alias.to_string(), keyed("https://localhost", Some(9200)), &PortChoice::NonInteractive, false).unwrap();
    let sorted = sort_by_alias(vec![mk("staging"), mk("dev_local"), mk("production_us"), mk("corp")]);
    let aliases: Vec<&str> = sorted.iter().map(|c| c.alias.as_str()).collect();
    assert_eq!(aliases, vec!["corp", "dev_local", "production_us", "staging"]);
}

#[test]
fn default_verify_certs_is_on() {
    assert!(default_verify_certs());
}

#[test]
fn default_port_written_in_host_is_taken() {
    assert_eq!(extract_port_from_url("https://example.com:443"), ("https://example.com".to_string(), Some(443)));
    assert_eq!(extract_port_from_url("http://example.com:80/"), ("http://example.com".to_string(), Some(80)));
    assert_eq!(extract_port_from_url("https://example.com"), ("https://example.com".to_string(), None));
    let c = validate_entry("c1".to_string(), keyed("https://example.com:443", None), &PortChoice::NonInteractive, false).unwrap();
    assert_eq!((c.host.as_str(), c.port), ("https://example.com", 443));
    let c = validate_entry("c1".to_string(), keyed("https://example.com:443", Some(443)), &PortChoice::NonInteractive, false).unwrap();
    assert_eq!((c.host.as_str(), c.port), ("https://example.com", 443));
    let err = validate_entry("c1".to_string(), keyed("https://example.com:443", Some(9200)), &PortChoice::NonInteractive, false).unwrap_err();
    assert!(matches!(err, ConfigError::PortConflict { .. }));
}

#[test]
fn written_port_detection() {
    assert!(has_written_port("https://example.com:443"));
    assert!(has_written_port("https://user:pw@example.com:9200/path"));
    assert!(!has_written_port("https://example.com"));
    assert!(!has_written_port("https://example.com/a:1"));
    assert!(!has_written_port("https://user:pw@example.com/"));
}

#[test]
fn port_from_parse_takes_the_parse_result() {
    let parsed = Some(("https://example.com/".to_string(), None, Some(443)));
    assert_eq!(port_from_parse("https://example.com:443", parsed.clone()), ("https://example.com".to_string(), Some(443)));
    assert_eq!(port_from_parse("https://example.com", parsed), ("https://example.com".to_string(), None));
    let parsed = Some(("https://example.com/".to_string(), Some(9300), Some(9300)));
    assert_eq!(port_from_parse("https://example.com:9300", parsed), ("https://example.com".to_string(), Some(9300)));
    assert_eq!(port_from_parse("not a url", None), ("not a url".to_string(), None));
}
