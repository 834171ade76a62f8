use es_license_consumption::calculation::{ClusterConsumption, ConsumptionDetail, LicenseMetadata, ReportTime};
use es_license_consumption::client::ClusterFailed;
use es_license_consumption::merge::{find_update_candidates, merge_reports, recompute_total_consumed};
use es_license_consumption::report::{
    build_report, capacity_fields, to_cluster_entry, ClusterEntry, EnterpriseClusterEntry,
    ErrorEntry, LicenseEntry, PlatinumClusterEntry, Report,
};

/// Bytes per ERU.
const ERU: f64 = 68719476736.0;

fn make_consumption(
    _alias: &str,
    cluster_name: &str,
    cluster_uuid: &str,
    license_uid: &str,
    license_type: &str,
    max_resource_units: Option<u32>,
    max_nodes: Option<u32>,
    detail: ConsumptionDetail,
) -> ClusterConsumption {
    ClusterConsumption {
        cluster_name: cluster_name.to_string(),
        cluster_uuid: cluster_uuid.to_string(),
        license: LicenseMetadata {
            uid: license_uid.to_string(),
            license_type: license_type.to_string(),
            issued_to: "Test Corp".to_string(),
            max_resource_units,
            max_nodes,
        },
        detail,
        is_partial: false,
        report_time: ReportTime::epoch(),
    }
}

/// An Enterprise detail for `consumed_raw` unrounded ERUs.
fn enterprise_detail(consumed_raw: f64) -> ConsumptionDetail {
    let raw = (consumed_raw * ERU) as u128;
    ConsumptionDetail::Enterprise {
        consumed: es_license_consumption::calculation::eru_hundredths_of(raw),
        consumed_raw: raw,
    }
}

#[test]
fn shared_license_across_multiple_clusters() {
    let results = vec![
        Ok(make_consumption("a", "cluster-a", "uuid-a", "shared-uid", "enterprise", Some(24), None, enterprise_detail(8.0))),
        Ok(make_consumption("b", "cluster-b", "uuid-b", "shared-uid", "enterprise", Some(24), None, enterprise_detail(4.0))),
    ];
    let report = build_report(results);
    assert_eq!(report.licenses.len(), 1);
    assert_eq!(report.licenses[0].clusters.len(), 2);
}

#[test]
fn enterprise_license_includes_max_resource_units() {
    let results = vec![Ok(make_consumption("a", "cluster-a", "uuid-a", "lic-1", "enterprise", Some(24), None, enterprise_detail(8.0)))];
    let report = build_report(results);
    assert_eq!(report.licenses[0].max_resource_units, Some(24));
    assert_eq!(report.licenses[0].max_nodes, None);
}

#[test]
fn platinum_license_includes_max_nodes_and_reason() {
    let results = vec![Ok(make_consumption(
        "a", "cluster-a", "uuid-a", "lic-1", "platinum", None, Some(12),
        ConsumptionDetail::Platinum { consumed: 7, reason: "Total RAM used".to_string() },
    ))];
    let report = build_report(results);
    assert_eq!(report.licenses[0].max_nodes, Some(12));
    assert_eq!(report.licenses[0].max_resource_units, None);
    match &report.licenses[0].clusters[0] {
        ClusterEntry::Platinum(p) => assert!(p.reason.contains("Total RAM used")),
        _ => panic!("expected a Platinum entry"),
    }
}

#[test]
fn basic_license_includes_fallback_metrics() {
    let results = vec![Ok(make_consumption(
        "a", "cluster-a", "uuid-a", "lic-1", "basic", None, None,
        ConsumptionDetail::Fallback { number_of_platinum_nodes: 3, number_of_enterprise_resource_units: 157 },
    ))];
    let report = build_report(results);
    match &report.licenses[0].clusters[0] {
        ClusterEntry::Fallback(f) => {
            assert_eq!(f.number_of_platinum_nodes, 3);
            assert_eq!(f.number_of_enterprise_resource_units, 157);
        }
        _ => panic!("expected a Fallback entry, without `consumed`"),
    }
}

#[test]
fn partial_failure_includes_both_licenses_and_errors() {
    let results: Vec<Result<ClusterConsumption, ClusterFailed>> = vec![
        Ok(make_consumption("good", "cluster-good", "uuid-good", "lic-1", "enterprise", Some(24), None, enterprise_detail(2.0))),
        Err(ClusterFailed { alias: "bad-cluster".to_string(), message: "connection refused".to_string() }),
    ];
    let report = build_report(results);
    assert_eq!(report.licenses.len(), 1);
    assert_eq!(report.errors.len(), 1);
    assert_eq!(report.errors[0].cluster, "bad-cluster");
    assert!(!report.all_failed());
}

#[test]
fn all_failures_reports_all_failed() {
    let results: Vec<Result<ClusterConsumption, ClusterFailed>> = vec![
        Err(ClusterFailed { alias: "a".to_string(), message: "timeout".to_string() }),
        Err(ClusterFailed { alias: "b".to_string(), message: "connection refused".to_string() }),
    ];
    let report = build_report(results);
    assert_eq!(report.licenses.len(), 0);
    assert_eq!(report.errors.len(), 2);
    assert!(report.all_failed());
}

#[test]
fn enterprise_total_consumed_sums_raw_then_ceils_to_integer() {
    // raw ERUs 1.234 + 2.567 = 3.801 → 4, not 2 + 3 = 5
    let results = vec![
        Ok(make_consumption("a", "cluster-a", "uuid-a", "lic-1", "enterprise", Some(24), None, enterprise_detail(1.234))),
        Ok(make_consumption("b", "cluster-b", "uuid-b", "lic-1", "enterprise", Some(24), None, enterprise_detail(2.567))),
    ];
    let report = build_report(results);
    assert_eq!(report.licenses[0].total_consumed, Some(4));
}

#[test]
fn enterprise_total_consumed_exact_integer_sum() {
    let results = vec![
        Ok(make_consumption("a", "cluster-a", "uuid-a", "lic-1", "enterprise", Some(24), None, enterprise_detail(2.0))),
        Ok(make_consumption("b", "cluster-b", "uuid-b", "lic-1", "enterprise", Some(24), None, enterprise_detail(2.0))),
    ];
    let report = build_report(results);
    assert_eq!(report.licenses[0].total_consumed, Some(4));
}

#[test]
fn platinum_total_consumed_sums_cluster_values() {
    let results = vec![
        Ok(make_consumption("a", "cluster-a", "uuid-a", "lic-1", "platinum", None, Some(12),
            ConsumptionDetail::Platinum { consumed: 5, reason: "node count".to_string() })),
        Ok(make_consumption("b", "cluster-b", "uuid-b", "lic-1", "platinum", None, Some(12),
            ConsumptionDetail::Platinum { consumed: 7, reason: "Total RAM used".to_string() })),
    ];
    let report = build_report(results);
    assert_eq!(report.licenses[0].total_consumed, Some(12));
}

#[test]
fn basic_license_has_no_total_consumed() {
    let results = vec![Ok(make_consumption(
        "a", "cluster-a", "uuid-a", "lic-1", "basic", None, None,
        ConsumptionDetail::Fallback { number_of_platinum_nodes: 3, number_of_enterprise_resource_units: 157 },
    ))];
    let report = build_report(results);
    assert_eq!(report.licenses[0].total_consumed, None);
}

// ── Merging ──────────────────────────────────────────────────────────────────

fn time(secs: i64) -> Option<ReportTime> {
    Some(ReportTime { secs, nanos: 0 })
}

const OLD_TIME: i64 = 1767225600; // 2026-01-01T00:00:00Z
const NEW_TIME: i64 = 1775001600; // 2026-04-01T00:00:00Z

fn ent(name: &str, uid: &str, consumed: u128, report_time: Option<ReportTime>) -> ClusterEntry {
    ClusterEntry::Enterprise(EnterpriseClusterEntry {
        cluster_name: name.to_string(),
        cluster_uid: uid.to_string(),
        consumed,
        report_time,
    })
}

fn one_license(clusters: Vec<ClusterEntry>) -> Report {
    Report {
        licenses: vec![LicenseEntry {
            name: "Test".to_string(),
            uid: "lic-1".to_string(),
            license_type: "enterprise".to_string(),
            max_resource_units: None,
            max_nodes: None,
            total_consumed: None,
            clusters,
        }],
        errors: vec![],
    }
}

fn consumed_values(r: &Report) -> Vec<u128> {
    r.licenses[0]
        .clusters
        .iter()
        .map(|c| match c {
            ClusterEntry::Enterprise(e) => e.consumed,
            _ => panic!("expected Enterprise"),
        })
        .collect()
}

#[test]
fn merge_stale_cluster_is_replaced() {
    let existing = one_license(vec![ent("c1", "uuid-1", 100, time(OLD_TIME))]);
    let fresh = one_license(vec![ent("c1", "uuid-1", 200, time(NEW_TIME))]);
    let merged = merge_reports(existing, fresh, &Vec::new());
    let values = consumed_values(&merged);
    assert!(values.contains(&200), "stale cluster should be updated");
    assert!(!values.contains(&100), "old value should be gone");
}

#[test]
fn merge_kept_cluster_is_retained() {
    let existing = one_license(vec![ent("c1", "uuid-1", 100, time(OLD_TIME))]);
    let fresh = one_license(vec![ent("c1", "uuid-1", 200, time(NEW_TIME))]);
    let keep_set = vec![("lic-1".to_string(), "uuid-1".to_string())];
    let merged = merge_reports(existing, fresh, &keep_set);
    assert!(consumed_values(&merged).contains(&100), "kept cluster should be retained");
}

#[test]
fn merge_new_cluster_is_appended() {
    let existing = one_license(vec![ent("c1", "uuid-1", 100, None)]);
    let fresh = one_license(vec![ent("c2", "uuid-2", 300, None)]);
    let merged = merge_reports(existing, fresh, &Vec::new());
    assert_eq!(merged.licenses[0].clusters.len(), 2);
}

#[test]
fn yaml_output_contains_report_time_and_total_consumed() {
    let ts = ReportTime { secs: 1775037600, nanos: 0 }; // 2026-04-01T10:00:00Z
    let results = vec![Ok(ClusterConsumption {
        cluster_name: "prod-cluster-1".to_string(),
        cluster_uuid: "uuid-1".to_string(),
        license: LicenseMetadata {
            uid: "lic-1".to_string(),
            license_type: "enterprise".to_string(),
            issued_to: "Example Production".to_string(),
            max_resource_units: Some(24),
            max_nodes: None,
        },
        detail: ConsumptionDetail::Enterprise { consumed: 800, consumed_raw: 8 * 68719476736 },
        is_partial: false,
        report_time: ts,
    })];
    let report = build_report(results);
    match &report.licenses[0].clusters[0] {
        ClusterEntry::Enterprise(e) => assert_eq!(e.report_time, Some(ts), "cluster entry should have report_time"),
        _ => panic!("expected Enterprise"),
    }
    assert_eq!(report.licenses[0].total_consumed, Some(8), "license entry should have total_consumed");
    assert_eq!(report.licenses[0].name, "Example Production");
}

#[test]
fn merge_missing_report_time_treated_as_epoch() {
    let existing = one_license(vec![ent("c1", "uuid-1", 100, None)]);
    let fresh = one_license(vec![ent("c1", "uuid-1", 500, time(NEW_TIME))]);
    let candidates = find_update_candidates(&existing, &fresh);
    assert_eq!(candidates.len(), 1, "cluster with no report_time should be a candidate");
    assert_eq!(candidates[0].cluster_uid, "uuid-1");
}

#[test]
fn update_all_silently_replaces_stale_clusters() {
    let existing = one_license(vec![
        ent("c1", "uuid-1", 100, time(OLD_TIME)),
        ent("c2", "uuid-2", 200, time(NEW_TIME)),
    ]);
    let fresh = one_license(vec![
        ent("c1", "uuid-1", 900, time(NEW_TIME)),
        ent("c2", "uuid-2", 200, time(NEW_TIME)),
    ]);
    let candidates = find_update_candidates(&existing, &fresh);
    assert_eq!(candidates.len(), 1, "only uuid-1 is stale");
    let merged = merge_reports(existing, fresh, &Vec::new());
    let values = consumed_values(&merged);
    assert!(values.contains(&900), "stale cluster should be updated to fresh value");
    assert!(values.contains(&200), "non-stale cluster should be retained");
}

#[test]
fn merge_cluster_absent_from_fresh_is_retained() {
    let existing = one_license(vec![ent("c1", "uuid-1", 100, None), ent("c2", "uuid-2", 200, None)]);
    let fresh = one_license(vec![ent("c1", "uuid-1", 150, None)]);
    let merged = merge_reports(existing, fresh, &Vec::new());
    assert_eq!(merged.licenses[0].clusters.len(), 2);
}

// ── Further cases ────────────────────────────────────────────────────────────

#[test]
fn licenses_sorted_by_uid_and_grouped_in_order() {
    let results = vec![
        Ok(make_consumption("a", "a", "ua", "lic-b", "platinum", None, Some(1),
            ConsumptionDetail::Platinum { consumed: 1, reason: "node count".to_string() })),
        Ok(make_consumption("b", "b", "ub", "lic-a", "enterprise", Some(2), None, enterprise_detail(1.0))),
        Err(ClusterFailed { alias: "x".to_string(), message: "boom".to_string() }),
        Ok(make_consumption("c", "c", "uc", "lic-b", "platinum", None, Some(1),
            ConsumptionDetail::Platinum { consumed: 2, reason: "node count".to_string() })),
    ];
    let report = build_report(results);
    let uids: Vec<&str> = report.licenses.iter().map(|l| l.uid.as_str()).collect();
    assert_eq!(uids, vec!["lic-a", "lic-b"]);
    let names: Vec<String> = report.licenses[1]
        .clusters
        .iter()
        .map(|c| match c {
            ClusterEntry::Platinum(p) => p.cluster_name.clone(),
            _ => panic!("expected Platinum"),
        })
        .collect();
    assert_eq!(names, vec!["a".to_string(), "c".to_string()]);
    assert_eq!(report.licenses[1].total_consumed, Some(3));
    assert_eq!(report.licenses[0].total_consumed, Some(1));
    assert_eq!(report.errors.len(), 1);
    assert_eq!(report.errors[0].message, "boom");
}

#[test]
fn no_results_is_not_all_failed() {
    let report = build_report(Vec::new());
    assert!(!report.all_failed());
}

#[test]
fn capacity_depends_on_license_type() {
    let lic = LicenseMetadata {
        uid: "u".to_string(),
        license_type: "x".to_string(),
        issued_to: "t".to_string(),
        max_resource_units: Some(5),
        max_nodes: Some(7),
    };
    assert_eq!(capacity_fields("enterprise", &lic), (Some(5), None));
    assert_eq!(capacity_fields("platinum", &lic), (None, Some(7)));
    assert_eq!(capacity_fields("basic", &lic), (None, None));
}

#[test]
fn cluster_entry_carries_report_time() {
    let c = make_consumption("a", "name", "uuid", "lic", "platinum", None, None,
        ConsumptionDetail::Platinum { consumed: 4, reason: "node count".to_string() });
    match to_cluster_entry(c) {
        ClusterEntry::Platinum(p) => {
            assert_eq!(p.consumed, 4);
            assert_eq!(p.cluster_uid, "uuid");
            assert_eq!(p.report_time, Some(ReportTime::epoch()));
        }
        _ => panic!("expected Platinum"),
    }
}

#[test]
fn recomputed_totals() {
    let cs = vec![ent("a", "1", 157, None), ent("b", "2", 244, None)];
    // 1.57 + 2.44 = 4.01 → 5
    assert_eq!(recompute_total_consumed("enterprise", &cs), Some(5));
    assert_eq!(recompute_total_consumed("platinum", &cs), None);
    let ps = vec![
        ClusterEntry::Platinum(PlatinumClusterEntry {
            cluster_name: "p".to_string(),
            cluster_uid: "p".to_string(),
            consumed: 5,
            reason: "node count".to_string(),
            report_time: None,
        }),
        ClusterEntry::Platinum(PlatinumClusterEntry {
            cluster_name: "q".to_string(),
            cluster_uid: "q".to_string(),
            consumed: 7,
            reason: "node count".to_string(),
            report_time: None,
        }),
    ];
    assert_eq!(recompute_total_consumed("platinum", &ps), Some(12));
    assert_eq!(recompute_total_consumed("basic", &ps), None);
}

#[test]
fn merge_recomputes_total_and_appends_new_license() {
    let existing = one_license(vec![ent("c1", "uuid-1", 150, time(OLD_TIME)), ent("c2", "uuid-2", 100, None)]);
    let mut fresh = one_license(vec![ent("c1", "uuid-1", 250, time(NEW_TIME))]);
    fresh.licenses.push(LicenseEntry {
        name: "Other".to_string(),
        uid: "lic-2".to_string(),
        license_type: "basic".to_string(),
        max_resource_units: None,
        max_nodes: None,
        total_consumed: None,
        clusters: vec![],
    });
    let merged = merge_reports(existing, fresh, &Vec::new());
    assert_eq!(merged.licenses.len(), 2);
    assert_eq!(merged.licenses[1].uid, "lic-2");
    assert_eq!(consumed_values(&merged), vec![250, 100]);
    // 2.50 + 1.00 = 3.50 → 4
    assert_eq!(merged.licenses[0].total_consumed, Some(4));
}

#[test]
fn update_all_merge_leaves_no_candidates() {
    let existing = one_license(vec![ent("c1", "uuid-1", 100, time(OLD_TIME)), ent("c3", "uuid-3", 1, None)]);
    let fresh = one_license(vec![ent("c1", "uuid-1", 900, time(NEW_TIME)), ent("c2", "uuid-2", 5, time(NEW_TIME))]);
    let fresh_again = one_license(vec![ent("c1", "uuid-1", 900, time(NEW_TIME)), ent("c2", "uuid-2", 5, time(NEW_TIME))]);
    let merged = merge_reports(existing, fresh, &Vec::new());
    assert!(find_update_candidates(&merged, &fresh_again).is_empty());
}

#[test]
fn newer_existing_time_is_not_a_candidate() {
    let existing = one_license(vec![ent("c1", "uuid-1", 100, time(NEW_TIME))]);
    let fresh = one_license(vec![ent("c1", "uuid-1", 500, time(OLD_TIME))]);
    assert!(find_update_candidates(&existing, &fresh).is_empty());
    let same = one_license(vec![ent("c1", "uuid-1", 500, time(NEW_TIME))]);
    assert!(find_update_candidates(&existing, &same).is_empty());
}

#[test]
fn merge_reports_this_runs_errors() {
    let mut existing = one_license(vec![ent("c1", "uuid-1", 100, None)]);
    existing.errors = vec![ErrorEntry { cluster: "old".to_string(), message: "gone".to_string() }];
    let mut fresh = one_license(vec![ent("c1", "uuid-1", 150, time(NEW_TIME))]);
    fresh.errors = vec![ErrorEntry { cluster: "c9".to_string(), message: "timeout".to_string() }];
    let merged = merge_reports(existing, fresh, &Vec::new());
    assert_eq!(merged.errors.len(), 1);
    assert_eq!(merged.errors[0].cluster, "c9");
    assert_eq!(merged.errors[0].message, "timeout");
}

#[test]
fn merge_newer_or_equal_existing_cluster_unchanged() {
    let existing = one_license(vec![ent("c1", "uuid-1", 100, time(NEW_TIME)), ent("c2", "uuid-2", 200, time(NEW_TIME))]);
    let fresh = one_license(vec![ent("c1", "uuid-1", 900, time(OLD_TIME)), ent("c2", "uuid-2", 800, time(NEW_TIME))]);
    assert!(find_update_candidates(&existing, &fresh).is_empty());
    let merged = merge_reports(existing, fresh, &Vec::new());
    assert_eq!(consumed_values(&merged), vec![100, 200]);
}
