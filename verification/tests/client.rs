use es_license_consumption::calculation::ReportTime;
use es_license_consumption::client::{
    api_key_header, cluster_data, endpoint_failure, endpoint_url, fail, node_data, order_by_index,
    tls_mode, Endpoint, LicenseApiInfo, MemStats, NodeStatEntry, OsStats, RootResponse, TlsMode,
};
use es_license_consumption::config::{Auth, ClusterConfig};

fn make_cluster(host: &str, port: u16) -> ClusterConfig {
    ClusterConfig {
        alias: "test-cluster".to_string(),
        host: host.to_string(),
        port,
        auth: Auth::ApiKey("test-api-key".to_string()),
        verify_certs: true,
        ca_certs: None,
    }
}

fn stat(roles: &[&str], bytes: Option<u64>) -> NodeStatEntry {
    NodeStatEntry {
        roles: roles.iter().map(|r| r.to_string()).collect(),
        os: Some(OsStats { mem: Some(MemStats { total_in_bytes: bytes }) }),
    }
}

fn license(uid: Option<&str>) -> LicenseApiInfo {
    LicenseApiInfo {
        uid: uid.map(|u| u.to_string()),
        license_type: "enterprise".to_string(),
        issued_to: Some("Test Corp".to_string()),
        max_resource_units: Some(24),
        max_nodes: None,
    }
}

#[test]
fn endpoints_of_a_cluster() {
    let c = make_cluster("http://127.0.0.1", 9200);
    assert_eq!(endpoint_url(&c, Endpoint::Root), "http://127.0.0.1:9200/");
    assert_eq!(
        endpoint_url(&c, Endpoint::NodesStats),
        "http://127.0.0.1:9200/_nodes/stats?filter_path=**.mem.total_in_bytes,**.roles"
    );
    assert_eq!(endpoint_url(&c, Endpoint::License), "http://127.0.0.1:9200/_license");
    assert_eq!(endpoint_url(&make_cluster("h", 0), Endpoint::Root), "h:0/");
    assert_eq!(endpoint_url(&make_cluster("h", 65535), Endpoint::Root), "h:65535/");
}

#[test]
fn cluster_data_is_normalized() {
    let c = make_cluster("http://127.0.0.1", 9200);
    let root = RootResponse { cluster_name: "my-cluster".to_string(), cluster_uuid: "abc-123-uuid".to_string() };
    let nodes = vec![
        stat(&["master", "data"], Some(137_438_953_472)),
        NodeStatEntry { roles: vec![], os: Some(OsStats { mem: None }) },
        NodeStatEntry { roles: vec!["data".to_string()], os: None },
    ];
    let t = ReportTime { secs: 5, nanos: 7 };
    let data = cluster_data(&c, root, nodes, license(Some("lic-uid-001")), t).unwrap();
    assert_eq!(data.cluster_name, "my-cluster");
    assert_eq!(data.cluster_uuid, "abc-123-uuid");
    assert_eq!(data.nodes.len(), 3);
    assert_eq!(data.nodes[0].memory_bytes, Some(137_438_953_472));
    assert_eq!(data.nodes[1].memory_bytes, None);
    assert_eq!(data.nodes[2].memory_bytes, None);
    assert_eq!(data.license.uid, "lic-uid-001");
    assert_eq!(data.license.license_type, "enterprise");
    assert_eq!(data.license.issued_to, "Test Corp");
    assert_eq!(data.report_time, t);
}

#[test]
fn missing_license_uid_fails_the_cluster() {
    let c = make_cluster("http://127.0.0.1", 9200);
    let root = RootResponse { cluster_name: "n".to_string(), cluster_uuid: "u".to_string() };
    let err = cluster_data(&c, root, vec![], license(None), ReportTime::epoch()).unwrap_err();
    assert_eq!(err.alias, "test-cluster");
    assert!(err.message.contains("uid"));
}

#[test]
fn missing_issued_to_is_empty() {
    let c = make_cluster("h", 1);
    let root = RootResponse { cluster_name: "n".to_string(), cluster_uuid: "u".to_string() };
    let mut l = license(Some("x"));
    l.issued_to = None;
    let data = cluster_data(&c, root, vec![stat(&["ml"], None)], l, ReportTime::epoch()).unwrap();
    assert_eq!(data.license.issued_to, "");
    assert_eq!(data.nodes[0].roles, vec!["ml".to_string()]);
}

#[test]
fn node_memory_is_read_from_os_mem() {
    let n = node_data(stat(&["data"], Some(42)));
    assert_eq!(n.memory_bytes, Some(42));
    assert_eq!(n.roles, vec!["data".to_string()]);
}

#[test]
fn failures_name_the_endpoint() {
    let c = make_cluster("h", 1);
    let f = endpoint_failure(&c, Endpoint::Root, "HTTP 401 Unauthorized from h:1/");
    assert_eq!(f.alias, "test-cluster");
    assert_eq!(f.message, "GET /: HTTP 401 Unauthorized from h:1/");
    let f = endpoint_failure(&c, Endpoint::NodesStats, "boom");
    assert_eq!(f.message, "GET _nodes/stats: boom");
    let f = endpoint_failure(&c, Endpoint::License, "boom");
    assert_eq!(f.message, "GET _license: boom");
    let f = fail(&c, "plain".to_string());
    assert_eq!(f.message, "plain");
}

#[test]
fn tls_modes() {
    let mut c = make_cluster("h", 1);
    assert!(matches!(tls_mode(&c), TlsMode::SystemRoots));
    c.ca_certs = Some("/ca.pem".to_string());
    assert!(matches!(tls_mode(&c), TlsMode::CustomRoot(ref p) if p == "/ca.pem"));
    c.verify_certs = false;
    assert!(matches!(tls_mode(&c), TlsMode::AcceptInvalid));
}

#[test]
fn api_key_authorization_header() {
    assert_eq!(api_key_header(&Auth::ApiKey("k1".to_string())), Some("ApiKey k1".to_string()));
    assert_eq!(
        api_key_header(&Auth::Basic { username: "u".to_string(), password: "p".to_string() }),
        None
    );
}

#[test]
fn results_back_in_configuration_order() {
    let ordered = order_by_index(vec![(2, "c"), (0, "a"), (3, "d"), (1, "b")]);
    assert_eq!(ordered, vec![(0, "a"), (1, "b"), (2, "c"), (3, "d")]);
}
