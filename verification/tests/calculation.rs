use es_license_consumption::calculation::{
    calculate, ClusterData, ConsumptionDetail, LicenseMetadata, NodeData, ReportTime,
};

const GIB: f64 = 1073741824.0;

fn make_data(license_type: &str, nodes: Vec<NodeData>) -> ClusterData {
    ClusterData {
        cluster_name: "test-cluster".to_string(),
        cluster_uuid: "uuid-1".to_string(),
        nodes,
        license: LicenseMetadata {
            uid: "uid-1".to_string(),
            license_type: license_type.to_string(),
            issued_to: "Test Corp".to_string(),
            max_resource_units: Some(24),
            max_nodes: Some(12),
        },
        report_time: ReportTime::epoch(),
    }
}

/// A node with the given roles and RAM in GB (converted to bytes).
fn node(roles: &[&str], memory_gb: Option<f64>) -> NodeData {
    NodeData {
        roles: roles.iter().map(|r| r.to_string()).collect(),
        memory_bytes: memory_gb.map(|gb| (gb * GIB) as u64),
    }
}

/// Hundredths of an ERU as a decimal number.
fn erus(hundredths: u128) -> f64 {
    hundredths as f64 / 100.0
}

#[test]
fn enterprise_whole_number_eru() {
    // 128 GB / 64 = 2.00
    let data = make_data(
        "enterprise",
        vec![node(&["master", "data"], Some(64.0)), node(&["data"], Some(64.0))],
    );
    let result = calculate(data);
    assert!(matches!(result.detail, ConsumptionDetail::Enterprise { consumed, .. } if erus(consumed) == 2.0));
}

#[test]
fn enterprise_fractional_eru() {
    // 100 GB / 64 = 1.5625 → round up to 2 decimals → 1.57
    let data = make_data("enterprise", vec![node(&["data"], Some(100.0))]);
    let result = calculate(data);
    assert!(matches!(result.detail, ConsumptionDetail::Enterprise { consumed, .. } if (erus(consumed) - 1.57).abs() < 1e-10));
}

#[test]
fn enterprise_round_up_at_two_decimals() {
    // 64.001 GB / 64 = 1.0000156... → ceil at 2 dec → 1.01
    let data = make_data("enterprise", vec![node(&["data"], Some(64.001))]);
    let result = calculate(data);
    assert!(matches!(result.detail, ConsumptionDetail::Enterprise { consumed, .. } if (erus(consumed) - 1.01).abs() < 1e-10));
}

#[test]
fn enterprise_zero_ram() {
    let data = make_data("enterprise", vec![node(&["data"], Some(0.0))]);
    let result = calculate(data);
    assert!(matches!(result.detail, ConsumptionDetail::Enterprise { consumed, .. } if erus(consumed) == 0.0));
}

#[test]
fn platinum_node_count_prevails() {
    // 5 qualifying nodes, qualifying RAM = 5 * 50 = 250 GB → ceil(250/64) = 4
    let nodes: Vec<NodeData> = (0..5).map(|_| node(&["data"], Some(50.0))).collect();
    let data = make_data("platinum", nodes);
    let result = calculate(data);
    match result.detail {
        ConsumptionDetail::Platinum { consumed, reason } => {
            assert_eq!(consumed, 5);
            assert_eq!(reason, "node count");
        }
        _ => panic!("expected Platinum"),
    }
}

#[test]
fn platinum_ram_prevails() {
    // 5 qualifying nodes, qualifying RAM = 5 * 90 = 450 GB → ceil(450/64) = 8
    let nodes: Vec<NodeData> = (0..5).map(|_| node(&["data"], Some(90.0))).collect();
    let data = make_data("platinum", nodes);
    let result = calculate(data);
    match result.detail {
        ConsumptionDetail::Platinum { consumed, reason } => {
            assert_eq!(consumed, 8);
            assert_eq!(reason, "Total RAM used");
        }
        _ => panic!("expected Platinum"),
    }
}

#[test]
fn platinum_non_qualifying_roles_ignored() {
    let data = make_data(
        "platinum",
        vec![
            node(&["data"], Some(64.0)),
            node(&["data"], Some(64.0)),
            node(&["data"], Some(64.0)),
            node(&["ingest"], Some(64.0)),
            node(&["coordinating_only"], Some(64.0)),
        ],
    );
    let result = calculate(data);
    match result.detail {
        ConsumptionDetail::Platinum { consumed, reason } => {
            assert_eq!(consumed, 3);
            assert_eq!(reason, "node count");
        }
        _ => panic!("expected Platinum"),
    }
}

#[test]
fn partial_data_handled_gracefully() {
    let data = make_data(
        "enterprise",
        vec![node(&["data"], Some(64.0)), node(&["data"], None)],
    );
    let result = calculate(data);
    assert!(result.is_partial);
    assert!(matches!(result.detail, ConsumptionDetail::Enterprise { consumed, .. } if erus(consumed) == 1.0));
}

#[test]
fn basic_license_reports_fallback_metrics() {
    let data = make_data(
        "basic",
        vec![
            node(&["data"], Some(64.0)),
            node(&["data"], Some(64.0)),
            node(&["ingest"], Some(64.0)),
        ],
    );
    let result = calculate(data);
    match result.detail {
        ConsumptionDetail::Fallback {
            number_of_platinum_nodes,
            number_of_enterprise_resource_units,
        } => {
            assert_eq!(number_of_platinum_nodes, 2);
            assert!((erus(number_of_enterprise_resource_units) - 3.0).abs() < 1e-10);
        }
        _ => panic!("expected Fallback"),
    }
}

#[test]
fn unknown_license_type_uses_fallback() {
    let data = make_data("trial", vec![node(&["master"], Some(32.0))]);
    let result = calculate(data);
    assert!(matches!(result.detail, ConsumptionDetail::Fallback { .. }));
}

// ── Further cases ────────────────────────────────────────────────────────────

#[test]
fn enterprise_raw_value_is_total_bytes() {
    let data = make_data("enterprise", vec![node(&["data"], Some(100.0)), node(&["ml"], Some(28.0))]);
    let result = calculate(data);
    match result.detail {
        ConsumptionDetail::Enterprise { consumed, consumed_raw } => {
            assert_eq!(consumed_raw, 128 * 1073741824);
            assert_eq!(consumed, 200);
        }
        _ => panic!("expected Enterprise"),
    }
    assert!(!result.is_partial);
    assert_eq!(result.license.uid, "uid-1");
    assert_eq!(result.cluster_name, "test-cluster");
}

#[test]
fn platinum_ram_counts_only_qualifying_nodes() {
    // qualifying: 2 nodes with 100 GB each = 200 GB → ceil(3.125) = 4 > 2 nodes
    let data = make_data(
        "platinum",
        vec![
            node(&["data_hot"], Some(100.0)),
            node(&["data_content", "ingest"], Some(100.0)),
            node(&["ingest"], Some(1000.0)),
        ],
    );
    match calculate(data).detail {
        ConsumptionDetail::Platinum { consumed, reason } => {
            assert_eq!(consumed, 4);
            assert_eq!(reason, "Total RAM used");
        }
        _ => panic!("expected Platinum"),
    }
}

#[test]
fn platinum_equal_quantities_report_node_count() {
    // 2 qualifying nodes, 128 GB → exactly 2 ERUs: node count prevails on ties
    let data = make_data(
        "platinum",
        vec![node(&["master"], Some(64.0)), node(&["data_warm"], Some(64.0))],
    );
    match calculate(data).detail {
        ConsumptionDetail::Platinum { consumed, reason } => {
            assert_eq!(consumed, 2);
            assert_eq!(reason, "node count");
        }
        _ => panic!("expected Platinum"),
    }
}

#[test]
fn fallback_counts_every_qualifying_role() {
    let data = make_data(
        "gold",
        vec![
            node(&["data_cold"], Some(1.0)),
            node(&["data_frozen"], Some(1.0)),
            node(&[], None),
        ],
    );
    let result = calculate(data);
    assert!(result.is_partial);
    match result.detail {
        ConsumptionDetail::Fallback { number_of_platinum_nodes, number_of_enterprise_resource_units } => {
            assert_eq!(number_of_platinum_nodes, 1);
            // 2 GB / 64 = 0.03125 → 0.04
            assert_eq!(number_of_enterprise_resource_units, 4);
        }
        _ => panic!("expected Fallback"),
    }
}

#[test]
fn non_qualifying_node_changes_nothing_for_platinum() {
    let base = vec![node(&["data"], Some(64.0)), node(&["data"], Some(64.0))];
    let mut more = vec![node(&["data"], Some(64.0)), node(&["data"], Some(64.0))];
    more.push(node(&["ingest"], Some(640.0)));
    let a = calculate(make_data("platinum", base));
    let b = calculate(make_data("platinum", more));
    match (a.detail, b.detail) {
        (
            ConsumptionDetail::Platinum { consumed: x, reason: rx },
            ConsumptionDetail::Platinum { consumed: y, reason: ry },
        ) => {
            assert_eq!(x, y);
            assert_eq!(rx, ry);
        }
        _ => panic!("expected Platinum"),
    }
}

#[test]
fn report_time_order() {
    let a = ReportTime { secs: 10, nanos: 5 };
    let b = ReportTime { secs: 10, nanos: 6 };
    let c = ReportTime { secs: 11, nanos: 0 };
    assert!(a.is_before(&b));
    assert!(b.is_before(&c));
    assert!(!b.is_before(&a));
    assert!(!a.is_before(&a));
}

#[test]
fn platinum_node_order_and_middle_non_qualifying_node() {
    let platinum = |nodes: Vec<NodeData>| match calculate(make_data("platinum", nodes)).detail {
        ConsumptionDetail::Platinum { consumed, reason } => (consumed, reason),
        other => panic!("expected Platinum, got {:?}", other),
    };
    let a = platinum(vec![node(&["data"], Some(200.0)), node(&["ml"], Some(100.0)), node(&["master"], None)]);
    let b = platinum(vec![node(&["master"], None), node(&["data"], Some(200.0)), node(&["ml"], Some(100.0))]);
    let c = platinum(vec![
        node(&["master"], None),
        node(&["ingest"], Some(512.0)),
        node(&["data"], Some(200.0)),
        node(&["coordinating"], Some(64.0)),
        node(&["ml"], Some(100.0)),
    ]);
    // 300 GB of qualifying RAM is 5 whole ERUs, more than 3 qualifying nodes.
    assert_eq!(a, (5, "Total RAM used".to_string()));
    assert_eq!(b, a);
    assert_eq!(c, a);
}
