//! The report: license entries that group the clusters sharing a license uid,
//! and the clusters that could not be queried; how a fresh report is built and
//! how it is merged into an existing one.

use vstd::prelude::*;
use crate::calculation::{
    ceil_div, ceil_div_u128, saturate_u64, ClusterConsumption, ConsumptionDetail,
    LicenseMetadata, ReportTime, ERU_BYTES, NodeData, detail_for, total_memory,
    law_enterprise_rounds_up_to_hundredths,
};
use crate::client::ClusterFailed;
use crate::text::{lemma_seq_lt_total, lemma_seq_lt_transitive, seq_lt, str_eq, str_lt};

verus! {

/// An Enterprise cluster: `consumed` is in hundredths of an ERU.
#[derive(Debug)]
pub struct EnterpriseClusterEntry {
    pub cluster_name: String,
    pub cluster_uid: String,
    pub consumed: u128,
    pub report_time: Option<ReportTime>,
}

/// A Platinum cluster.
#[derive(Debug)]
pub struct PlatinumClusterEntry {
    pub cluster_name: String,
    pub cluster_uid: String,
    pub consumed: u64,
    pub reason: String,
    pub report_time: Option<ReportTime>,
}

/// A cluster under any other license: `number_of_enterprise_resource_units` is
/// in hundredths of an ERU.
#[derive(Debug)]
pub struct FallbackClusterEntry {
    pub cluster_name: String,
    pub cluster_uid: String,
    pub number_of_platinum_nodes: u64,
    pub number_of_enterprise_resource_units: u128,
    pub report_time: Option<ReportTime>,
}

/// One cluster of a license entry.
#[derive(Debug)]
pub enum ClusterEntry {
    Platinum(PlatinumClusterEntry),
    Fallback(FallbackClusterEntry),
    Enterprise(EnterpriseClusterEntry),
}

/// The clusters that share one license.
#[derive(Debug)]
pub struct LicenseEntry {
    pub name: String,
    pub uid: String,
    pub license_type: String,
    pub max_resource_units: Option<u32>,
    pub max_nodes: Option<u32>,
    pub total_consumed: Option<u64>,
    pub clusters: Vec<ClusterEntry>,
}

/// A cluster that could not be queried.
#[derive(Debug)]
pub struct ErrorEntry {
    pub cluster: String,
    pub message: String,
}

/// The whole report.
#[derive(Debug)]
pub struct Report {
    pub licenses: Vec<LicenseEntry>,
    pub errors: Vec<ErrorEntry>,
}

impl Report {
    /// No license could be reported and some cluster failed.
    pub fn all_failed(&self) -> (r: bool)
        ensures
            r == (self.licenses@.len() == 0 && self.errors@.len() > 0),
    {
        self.licenses.len() == 0 && self.errors.len() > 0
    }
}

// ── Cluster entries ─────────────────────────────────────────────────────────

pub open spec fn entry_uid(e: ClusterEntry) -> Seq<char> {
    match e {
        ClusterEntry::Enterprise(x) => x.cluster_uid@,
        ClusterEntry::Platinum(x) => x.cluster_uid@,
        ClusterEntry::Fallback(x) => x.cluster_uid@,
    }
}

pub open spec fn entry_name(e: ClusterEntry) -> Seq<char> {
    match e {
        ClusterEntry::Enterprise(x) => x.cluster_name@,
        ClusterEntry::Platinum(x) => x.cluster_name@,
        ClusterEntry::Fallback(x) => x.cluster_name@,
    }
}

pub open spec fn entry_time(e: ClusterEntry) -> Option<ReportTime> {
    match e {
        ClusterEntry::Enterprise(x) => x.report_time,
        ClusterEntry::Platinum(x) => x.report_time,
        ClusterEntry::Fallback(x) => x.report_time,
    }
}

/// The entry reported for a cluster's consumption, stamped with its report time.
pub open spec fn entry_of(c: ClusterConsumption) -> ClusterEntry {
    match c.detail {
        ConsumptionDetail::Enterprise { consumed, consumed_raw } => ClusterEntry::Enterprise(
            EnterpriseClusterEntry {
                cluster_name: c.cluster_name,
                cluster_uid: c.cluster_uuid,
                consumed,
                report_time: Some(c.report_time),
            },
        ),
        ConsumptionDetail::Platinum { consumed, reason } => ClusterEntry::Platinum(
            PlatinumClusterEntry {
                cluster_name: c.cluster_name,
                cluster_uid: c.cluster_uuid,
                consumed,
                reason,
                report_time: Some(c.report_time),
            },
        ),
        ConsumptionDetail::Fallback {
            number_of_platinum_nodes,
            number_of_enterprise_resource_units,
        } => ClusterEntry::Fallback(
            FallbackClusterEntry {
                cluster_name: c.cluster_name,
                cluster_uid: c.cluster_uuid,
                number_of_platinum_nodes,
                number_of_enterprise_resource_units,
                report_time: Some(c.report_time),
            },
        ),
    }
}

/// The report entry of a cluster's consumption.
pub fn to_cluster_entry(c: ClusterConsumption) -> (r: ClusterEntry)
    ensures
        r == entry_of(c),
{
    let rt = Some(c.report_time);
    match c.detail {
        ConsumptionDetail::Enterprise { consumed, .. } => ClusterEntry::Enterprise(
            EnterpriseClusterEntry {
                cluster_name: c.cluster_name,
                cluster_uid: c.cluster_uuid,
                consumed,
                report_time: rt,
            },
        ),
        ConsumptionDetail::Platinum { consumed, reason } => ClusterEntry::Platinum(
            PlatinumClusterEntry {
                cluster_name: c.cluster_name,
                cluster_uid: c.cluster_uuid,
                consumed,
                reason,
                report_time: rt,
            },
        ),
        ConsumptionDetail::Fallback {
            number_of_platinum_nodes,
            number_of_enterprise_resource_units,
        } => ClusterEntry::Fallback(
            FallbackClusterEntry {
                cluster_name: c.cluster_name,
                cluster_uid: c.cluster_uuid,
                number_of_platinum_nodes,
                number_of_enterprise_resource_units,
                report_time: rt,
            },
        ),
    }
}

/// The cluster uid of an entry.
pub fn cluster_uid_of(e: &ClusterEntry) -> (r: &String)
    ensures
        r@ == entry_uid(*e),
{
    match e {
        ClusterEntry::Enterprise(x) => &x.cluster_uid,
        ClusterEntry::Platinum(x) => &x.cluster_uid,
        ClusterEntry::Fallback(x) => &x.cluster_uid,
    }
}

/// The cluster name of an entry.
pub fn cluster_name_of(e: &ClusterEntry) -> (r: &String)
    ensures
        r@ == entry_name(*e),
{
    match e {
        ClusterEntry::Enterprise(x) => &x.cluster_name,
        ClusterEntry::Platinum(x) => &x.cluster_name,
        ClusterEntry::Fallback(x) => &x.cluster_name,
    }
}

/// The report time of an entry.
pub fn report_time_of(e: &ClusterEntry) -> (r: Option<ReportTime>)
    ensures
        r == entry_time(*e),
{
    match e {
        ClusterEntry::Enterprise(x) => x.report_time,
        ClusterEntry::Platinum(x) => x.report_time,
        ClusterEntry::Fallback(x) => x.report_time,
    }
}

// ── Building the report ─────────────────────────────────────────────────────

/// The capacity shown for a license: `max_resource_units` for Enterprise,
/// `max_nodes` for Platinum, neither otherwise.
pub open spec fn capacity(license_type: Seq<char>, license: LicenseMetadata) -> (Option<u32>, Option<u32>) {
    if license_type == "enterprise"@ {
        (license.max_resource_units, None)
    } else if license_type == "platinum"@ {
        (None, license.max_nodes)
    } else {
        (None, None)
    }
}

/// The capacity fields shown for a license of type `license_type`.
pub fn capacity_fields(license_type: &str, license: &LicenseMetadata) -> (r: (Option<u32>, Option<u32>))
    ensures
        r == capacity(license_type@, *license),
{
    if str_eq(license_type, "enterprise") {
        (license.max_resource_units, None)
    } else if str_eq(license_type, "platinum") {
        (None, license.max_nodes)
    } else {
        (None, None)
    }
}

/// `r` is a success whose license uid is `uid`.
pub open spec fn success_with_uid(r: Result<ClusterConsumption, ClusterFailed>, uid: Seq<char>) -> bool {
    r matches Ok(c) && c.license.uid@ == uid
}

/// Entries of the successes with license uid `uid`, in order.
pub open spec fn group_entries(rs: Seq<Result<ClusterConsumption, ClusterFailed>>, uid: Seq<char>) -> Seq<ClusterEntry>
    decreases rs.len(),
{
    if rs.len() == 0 {
        seq![]
    } else if success_with_uid(rs.last(), uid) {
        group_entries(rs.drop_last(), uid).push(entry_of(rs.last()->Ok_0))
    } else {
        group_entries(rs.drop_last(), uid)
    }
}

/// License metadata of the first success with license uid `uid`.
pub open spec fn group_first(rs: Seq<Result<ClusterConsumption, ClusterFailed>>, uid: Seq<char>) -> Option<LicenseMetadata>
    decreases rs.len(),
{
    if rs.len() == 0 {
        None
    } else {
        match group_first(rs.drop_last(), uid) {
            Some(l) => Some(l),
            None => if success_with_uid(rs.last(), uid) {
                Some(rs.last()->Ok_0.license)
            } else {
                None
            },
        }
    }
}

pub open spec fn raw_of(r: Result<ClusterConsumption, ClusterFailed>) -> nat {
    match r {
        Ok(c) => match c.detail {
            ConsumptionDetail::Enterprise { consumed_raw, .. } => consumed_raw as nat,
            _ => 0,
        },
        Err(_) => 0,
    }
}

pub open spec fn platinum_of(r: Result<ClusterConsumption, ClusterFailed>) -> nat {
    match r {
        Ok(c) => match c.detail {
            ConsumptionDetail::Platinum { consumed, .. } => consumed as nat,
            _ => 0,
        },
        Err(_) => 0,
    }
}

/// Sum of the unrounded Enterprise ERUs (in `1 / ERU_BYTES` units) of the
/// successes with license uid `uid`.
pub open spec fn group_raw_sum(rs: Seq<Result<ClusterConsumption, ClusterFailed>>, uid: Seq<char>) -> nat
    decreases rs.len(),
{
    if rs.len() == 0 {
        0
    } else {
        group_raw_sum(rs.drop_last(), uid) + if success_with_uid(rs.last(), uid) {
            raw_of(rs.last())
        } else {
            0
        }
    }
}

/// Sum of the Platinum quantities of the successes with license uid `uid`.
pub open spec fn group_platinum_sum(rs: Seq<Result<ClusterConsumption, ClusterFailed>>, uid: Seq<char>) -> nat
    decreases rs.len(),
{
    if rs.len() == 0 {
        0
    } else {
        group_platinum_sum(rs.drop_last(), uid) + if success_with_uid(rs.last(), uid) {
            platinum_of(rs.last())
        } else {
            0
        }
    }
}

/// The error entries of the failures, in order.
pub open spec fn failures(rs: Seq<Result<ClusterConsumption, ClusterFailed>>) -> Seq<ErrorEntry>
    decreases rs.len(),
{
    if rs.len() == 0 {
        seq![]
    } else {
        match rs.last() {
            Err(e) => failures(rs.drop_last()).push(ErrorEntry { cluster: e.alias, message: e.message }),
            Ok(_) => failures(rs.drop_last()),
        }
    }
}

/// `total_consumed` of a license entry built from the successes: for
/// Enterprise, the unrounded ERUs summed and then rounded up to an integer; for
/// Platinum, the sum of the quantities; nothing for other types.
pub open spec fn built_total(license_type: Seq<char>, has_clusters: bool, raw_sum: nat, platinum_sum: nat) -> Option<u64> {
    if license_type == "enterprise"@ && has_clusters {
        Some(saturate_u64(ceil_div(raw_sum, ERU_BYTES as nat)))
    } else if license_type == "platinum"@ && has_clusters {
        Some(platinum_sum as u64)
    } else {
        None
    }
}

/// `e` is the license entry that `build_report` makes for the successes of `rs`
/// with license uid `e.uid`.
pub open spec fn built_license(rs: Seq<Result<ClusterConsumption, ClusterFailed>>, e: LicenseEntry) -> bool {
    let uid = e.uid@;
    &&& group_first(rs, uid) matches Some(first)
    &&& e.uid == first.uid
    &&& e.name == first.issued_to
    &&& e.license_type == first.license_type
    &&& (e.max_resource_units, e.max_nodes) == capacity(first.license_type@, first)
    &&& e.clusters@ == group_entries(rs, uid)
    &&& e.total_consumed == built_total(
        first.license_type@,
        group_entries(rs, uid).len() > 0,
        group_raw_sum(rs, uid),
        group_platinum_sum(rs, uid),
    )
}

/// License entries ordered strictly by uid.
pub open spec fn sorted_by_uid(ls: Seq<LicenseEntry>) -> bool {
    forall|i: int, j: int| 0 <= i < j < ls.len() ==> seq_lt(#[trigger] ls[i].uid@, #[trigger] ls[j].uid@)
}

/// Some success of `rs` has license uid `uid`.
pub open spec fn has_success_uid(rs: Seq<Result<ClusterConsumption, ClusterFailed>>, uid: Seq<char>) -> bool {
    exists|i: int| 0 <= i < rs.len() && #[trigger] success_with_uid(rs[i], uid)
}

/// Platinum quantities of no license overflow a `u64` when summed (the sum is
/// kept in a `u64`).
pub open spec fn platinum_sums_fit(rs: Seq<Result<ClusterConsumption, ClusterFailed>>) -> bool {
    forall|uid: Seq<char>| #[trigger] group_platinum_sum(rs, uid) <= u64::MAX
}

/// `r` is the report built from the results `rs`: the failures as errors, in
/// order; one license entry per license uid of the successes, ordered by uid,
/// each as `built_license` describes it.
pub open spec fn built_report(rs: Seq<Result<ClusterConsumption, ClusterFailed>>, r: Report) -> bool {
    &&& r.errors@ == failures(rs)
    &&& sorted_by_uid(r.licenses@)
    &&& forall|j: int| 0 <= j < r.licenses@.len() ==> built_license(rs, #[trigger] r.licenses@[j])
    &&& forall|uid: Seq<char>| #[trigger] has_success_uid(rs, uid)
        ==> exists|j: int| 0 <= j < r.licenses@.len() && #[trigger] r.licenses@[j].uid@ == uid
}

/// A license entry being built, with the sums its total is computed from.
struct Group {
    entry: LicenseEntry,
    raw_sum: u128,
    platinum_sum: u64,
}

spec fn min_u128(x: nat) -> nat {
    if x <= u128::MAX { x } else { u128::MAX as nat }
}

/// `g` is the group of license uid `g.entry.uid` over the results `rs`.
spec fn group_ok(rs: Seq<Result<ClusterConsumption, ClusterFailed>>, g: Group) -> bool {
    let uid = g.entry.uid@;
    &&& group_first(rs, uid) matches Some(first)
    &&& g.entry.uid == first.uid
    &&& g.entry.name == first.issued_to
    &&& g.entry.license_type == first.license_type
    &&& (g.entry.max_resource_units, g.entry.max_nodes) == capacity(first.license_type@, first)
    &&& g.entry.total_consumed is None
    &&& g.entry.clusters@ == group_entries(rs, uid)
    &&& g.raw_sum == min_u128(group_raw_sum(rs, uid))
    &&& g.platinum_sum == group_platinum_sum(rs, uid)
}

spec fn groups_sorted(gs: Seq<Group>) -> bool {
    forall|i: int, j: int| 0 <= i < j < gs.len() ==> seq_lt(#[trigger] gs[i].entry.uid@, #[trigger] gs[j].entry.uid@)
}

/// Without a success of uid `uid` nothing is grouped under it; with one, the
/// group has a first license and an entry.
proof fn lemma_group_presence(rs: Seq<Result<ClusterConsumption, ClusterFailed>>, uid: Seq<char>)
    ensures
        has_success_uid(rs, uid) ==> group_first(rs, uid) is Some && group_entries(rs, uid).len() > 0,
        !has_success_uid(rs, uid) ==> group_first(rs, uid) is None && group_entries(rs, uid) == Seq::<ClusterEntry>::empty()
            && group_raw_sum(rs, uid) == 0 && group_platinum_sum(rs, uid) == 0,
    decreases rs.len(),
{
    if rs.len() > 0 {
        let p = rs.drop_last();
        lemma_group_presence(p, uid);
        if has_success_uid(rs, uid) && !success_with_uid(rs.last(), uid) {
            let i = choose|i: int| 0 <= i < rs.len() && #[trigger] success_with_uid(rs[i], uid);
            assert(p[i] == rs[i]);
        }
        if has_success_uid(p, uid) {
            let i = choose|i: int| 0 <= i < p.len() && #[trigger] success_with_uid(p[i], uid);
            assert(rs[i] == p[i]);
        }
        if !has_success_uid(rs, uid) {
            assert(!success_with_uid(rs[rs.len() - 1], uid));
            if has_success_uid(p, uid) {
                let i = choose|i: int| 0 <= i < p.len() && #[trigger] success_with_uid(p[i], uid);
                assert(rs[i] == p[i]);
            }
        }
    }
}

/// Appending a result extends the successes of its uid only.
proof fn lemma_has_success_step(rs: Seq<Result<ClusterConsumption, ClusterFailed>>, i: int, uid: Seq<char>)
    requires
        0 <= i < rs.len(),
    ensures
        has_success_uid(rs.take(i + 1), uid) == (has_success_uid(rs.take(i), uid) || success_with_uid(rs[i], uid)),
{
    let p = rs.take(i);
    let q = rs.take(i + 1);
    if has_success_uid(q, uid) {
        let j = choose|j: int| 0 <= j < q.len() && #[trigger] success_with_uid(q[j], uid);
        if j < i {
            assert(p[j] == q[j]);
        }
    }
    if has_success_uid(p, uid) {
        let j = choose|j: int| 0 <= j < p.len() && #[trigger] success_with_uid(p[j], uid);
        assert(q[j] == p[j]);
    }
    if success_with_uid(rs[i], uid) {
        assert(q[i] == rs[i]);
    }
}

/// The platinum sum over a prefix is at most the sum over the whole.
proof fn lemma_platinum_prefix(rs: Seq<Result<ClusterConsumption, ClusterFailed>>, i: int, uid: Seq<char>)
    requires
        0 <= i <= rs.len(),
    ensures
        group_platinum_sum(rs.take(i), uid) <= group_platinum_sum(rs, uid),
    decreases rs.len() - i,
{
    if i < rs.len() {
        lemma_platinum_prefix(rs, i + 1, uid);
        assert(rs.take(i + 1).drop_last() =~= rs.take(i));
    } else {
        assert(rs.take(i) =~= rs);
    }
}

proof fn lemma_saturated_total(x: nat)
    ensures
        saturate_u64(ceil_div(min_u128(x), ERU_BYTES as nat)) == saturate_u64(ceil_div(x, ERU_BYTES as nat)),
{
    let e = ERU_BYTES as nat;
    if x > u128::MAX {
        let m = u128::MAX as nat;
        assert(ceil_div(m, e) >= m / e) by (nonlinear_arith)
            requires e > 0, ceil_div(m, e) == ((m + e - 1) as nat) / e;
        assert(m / e > u64::MAX) by (nonlinear_arith)
            requires m == u128::MAX, e == 68719476736;
        assert(ceil_div(x, e) >= ceil_div(m, e)) by (nonlinear_arith)
            requires e > 0, x > m, ceil_div(m, e) == ((m + e - 1) as nat) / e,
                ceil_div(x, e) == ((x + e - 1) as nat) / e;
    }
}

/// Build the report from the results of all clusters: the successes grouped
/// by license uid, one license entry per uid in order of uid, each holding its
/// clusters in the order of the results; the failures as error entries, in
/// order.
pub fn build_report(results: Vec<Result<ClusterConsumption, ClusterFailed>>) -> (r: Report)
    requires
        platinum_sums_fit(results@),
    ensures
        built_report(results@, r),
{
    let ghost orig = results@;
    let n = results.len();
    let mut rest = results;
    let mut groups: Vec<Group> = Vec::new();
    let mut errors: Vec<ErrorEntry> = Vec::new();
    let mut i: usize = 0;
    proof {
        assert(orig.skip(0) =~= orig);
        assert(orig.take(0) =~= Seq::<Result<ClusterConsumption, ClusterFailed>>::empty());
    }
    while i < n
        invariant
            n == orig.len(),
            i <= n,
            rest@ == orig.skip(i as int),
            errors@ == failures(orig.take(i as int)),
            groups_sorted(groups@),
            forall|j: int| 0 <= j < groups@.len() ==> group_ok(orig.take(i as int), #[trigger] groups@[j]),
            forall|uid: Seq<char>| #[trigger] has_success_uid(orig.take(i as int), uid)
                ==> exists|j: int| 0 <= j < groups@.len() && #[trigger] groups@[j].entry.uid@ == uid,
            platinum_sums_fit(orig),
        decreases n - i,
    {
        let ghost p = orig.take(i as int);
        let ghost q = orig.take(i + 1);
        let result = rest.remove(0);
        proof {
            assert(result == orig[i as int]);
            assert(rest@ =~= orig.skip(i + 1));
            assert(q.drop_last() =~= p);
            assert(q.last() == result);
        }
        match result {
            Err(e) => {
                errors.push(ErrorEntry { cluster: e.alias, message: e.message });
                proof {
                    assert forall|j: int| 0 <= j < groups@.len() implies group_ok(q, #[trigger] groups@[j]) by {
                        assert(group_ok(p, groups@[j]));
                    }
                    assert forall|uid: Seq<char>| #[trigger] has_success_uid(q, uid)
                        implies exists|j: int| 0 <= j < groups@.len() && #[trigger] groups@[j].entry.uid@ == uid by {
                        lemma_has_success_step(orig, i as int, uid);
                    }
                }
            },
            Ok(c) => {
                let ghost cc = c;
                let uid = c.license.uid.clone();
                let raw: u128 = match &c.detail {
                    ConsumptionDetail::Enterprise { consumed_raw, .. } => *consumed_raw,
                    _ => 0,
                };
                let plat: u64 = match &c.detail {
                    ConsumptionDetail::Platinum { consumed, .. } => *consumed,
                    _ => 0,
                };
                let len = groups.len();
                let mut k: usize = 0;
                while k < len && str_lt(groups[k].entry.uid.as_str(), uid.as_str())
                    invariant
                        len == groups@.len(),
                        k <= len,
                        forall|j: int| 0 <= j < k ==> seq_lt(#[trigger] groups@[j].entry.uid@, uid@),
                    decreases len - k,
                {
                    k = k + 1;
                }
                let found = k < len && groups[k].entry.uid == uid;
                let ghost old_groups = groups@;
                proof {
                    lemma_platinum_prefix(orig, i + 1, uid@);
                    lemma_group_presence(p, uid@);
                    assert(raw_of(result) == raw);
                    assert(platinum_of(result) == plat);
                    if k < len {
                        assert(!seq_lt(old_groups[k as int].entry.uid@, uid@));
                        lemma_seq_lt_total(old_groups[k as int].entry.uid@, uid@);
                        if !found {
                            assert(seq_lt(uid@, old_groups[k as int].entry.uid@));
                        }
                    }
                    assert forall|j: int| 0 <= j < len && j != k implies #[trigger] old_groups[j].entry.uid@ != uid@ by {
                        if j < k {
                            lemma_seq_lt_total(old_groups[j].entry.uid@, uid@);
                        } else {
                            assert(seq_lt(old_groups[k as int].entry.uid@, old_groups[j].entry.uid@));
                            if found {
                                crate::text::lemma_seq_lt_irreflexive(uid@);
                            } else {
                                lemma_seq_lt_transitive(uid@, old_groups[k as int].entry.uid@, old_groups[j].entry.uid@);
                                crate::text::lemma_seq_lt_irreflexive(uid@);
                            }
                        }
                    }
                }
                if found {
                    let mut g = groups.remove(k);
                    g.raw_sum = g.raw_sum.saturating_add(raw);
                    g.platinum_sum = g.platinum_sum + plat;
                    g.entry.clusters.push(to_cluster_entry(c));
                    groups.insert(k, g);
                } else {
                    let (max_resource_units, max_nodes) = capacity_fields(c.license.license_type.as_str(), &c.license);
                    let entry = LicenseEntry {
                        name: c.license.issued_to.clone(),
                        uid: c.license.uid.clone(),
                        license_type: c.license.license_type.clone(),
                        max_resource_units,
                        max_nodes,
                        total_consumed: None,
                        clusters: Vec::new(),
                    };
                    let mut g = Group { entry, raw_sum: 0, platinum_sum: 0 };
                    proof {
                        assert(!has_success_uid(p, uid@));
                    }
                    g.raw_sum = raw;
                    g.platinum_sum = plat;
                    g.entry.clusters.push(to_cluster_entry(c));
                    groups.insert(k, g);
                }
                proof {
                    lemma_build_step(orig, i as int, old_groups, groups@, k as int, found, uid@);
                }
            },
        }
        i = i + 1;
    }
    proof {
        assert(orig.take(n as int) =~= orig);
    }
    let mut licenses: Vec<LicenseEntry> = Vec::new();
    let ghost gs = groups@;
    let m = groups.len();
    let mut j: usize = 0;
    while j < m
        invariant
            m == gs.len(),
            j <= m,
            groups@ == gs.skip(j as int),
            licenses@.len() == j,
            forall|t: int| 0 <= t < j ==> #[trigger] licenses@[t].uid == gs[t].entry.uid,
            forall|t: int| 0 <= t < j ==> built_license(orig, #[trigger] licenses@[t]),
            forall|t: int| 0 <= t < gs.len() ==> group_ok(orig, #[trigger] gs[t]),
            groups_sorted(gs),
            forall|uid: Seq<char>| #[trigger] has_success_uid(orig, uid)
                ==> exists|t: int| 0 <= t < gs.len() && #[trigger] gs[t].entry.uid@ == uid,
        decreases m - j,
    {
        let g = groups.remove(0);
        proof {
            assert(g == gs[j as int]);
            assert(groups@ =~= gs.skip(j + 1));
            assert(group_ok(orig, g));
            lemma_saturated_total(group_raw_sum(orig, g.entry.uid@));
        }
        let Group { entry, raw_sum, platinum_sum } = g;
        let has_clusters = entry.clusters.len() > 0;
        let total = if str_eq(entry.license_type.as_str(), "enterprise") && has_clusters {
            let units = ceil_div_u128(raw_sum, ERU_BYTES);
            if units <= u64::MAX as u128 {
                Some(units as u64)
            } else {
                Some(u64::MAX)
            }
        } else if str_eq(entry.license_type.as_str(), "platinum") && has_clusters {
            Some(platinum_sum)
        } else {
            None
        };
        let LicenseEntry { name, uid, license_type, max_resource_units, max_nodes, total_consumed: _, clusters } = entry;
        licenses.push(LicenseEntry { name, uid, license_type, max_resource_units, max_nodes, total_consumed: total, clusters });
        j = j + 1;
    }
    proof {
        assert forall|a: int, b: int| 0 <= a < b < licenses@.len() implies seq_lt(#[trigger] licenses@[a].uid@, #[trigger] licenses@[b].uid@) by {
            assert(licenses@[a].uid == gs[a].entry.uid);
            assert(licenses@[b].uid == gs[b].entry.uid);
        }
        assert forall|uid: Seq<char>| #[trigger] has_success_uid(orig, uid)
            implies exists|t: int| 0 <= t < licenses@.len() && #[trigger] licenses@[t].uid@ == uid by {
            let t = choose|t: int| 0 <= t < gs.len() && #[trigger] gs[t].entry.uid@ == uid;
            assert(licenses@[t].uid == gs[t].entry.uid);
        }
    }
    let r = Report { licenses, errors };
    proof {
        assert forall|uid: Seq<char>| #[trigger] has_success_uid(results@, uid)
            implies exists|t: int| 0 <= t < r.licenses@.len() && #[trigger] r.licenses@[t].uid@ == uid by {
            assert(has_success_uid(orig, uid));
            let t = choose|t: int| 0 <= t < licenses@.len() && #[trigger] licenses@[t].uid@ == uid;
            assert(r.licenses@[t].uid@ == uid);
        }
    }
    r
}

/// One success of `rs[i]` with uid `uid` moves the groups from `old_groups`
/// to `new_groups` by updating or inserting the group at `k`.
proof fn lemma_build_step(
    rs: Seq<Result<ClusterConsumption, ClusterFailed>>,
    i: int,
    old_groups: Seq<Group>,
    new_groups: Seq<Group>,
    k: int,
    found: bool,
    uid: Seq<char>,
)
    requires
        0 <= i < rs.len(),
        platinum_sums_fit(rs),
        success_with_uid(rs[i], uid),
        groups_sorted(old_groups),
        forall|j: int| 0 <= j < old_groups.len() ==> group_ok(rs.take(i), #[trigger] old_groups[j]),
        forall|u: Seq<char>| #[trigger] has_success_uid(rs.take(i), u)
            ==> exists|j: int| 0 <= j < old_groups.len() && #[trigger] old_groups[j].entry.uid@ == u,
        0 <= k <= old_groups.len(),
        forall|j: int| 0 <= j < k ==> seq_lt(#[trigger] old_groups[j].entry.uid@, uid),
        forall|j: int| 0 <= j < old_groups.len() && j != k ==> #[trigger] old_groups[j].entry.uid@ != uid,
        found == (k < old_groups.len() && old_groups[k].entry.uid@ == uid),
        !found ==> (k < old_groups.len() ==> seq_lt(uid, old_groups[k].entry.uid@)),
        found ==> new_groups.len() == old_groups.len() && (forall|j: int| 0 <= j < old_groups.len() && j != k ==> new_groups[j] == old_groups[j])
            && new_groups[k].entry.uid == old_groups[k].entry.uid
            && new_groups[k].entry.name == old_groups[k].entry.name
            && new_groups[k].entry.license_type == old_groups[k].entry.license_type
            && new_groups[k].entry.max_resource_units == old_groups[k].entry.max_resource_units
            && new_groups[k].entry.max_nodes == old_groups[k].entry.max_nodes
            && new_groups[k].entry.total_consumed == old_groups[k].entry.total_consumed
            && new_groups[k].entry.clusters@ == old_groups[k].entry.clusters@.push(entry_of(rs[i]->Ok_0))
            && new_groups[k].raw_sum == min_u128((old_groups[k].raw_sum + raw_of(rs[i])) as nat)
            && new_groups[k].platinum_sum == old_groups[k].platinum_sum + platinum_of(rs[i]),
        !found ==> new_groups.len() == old_groups.len() + 1 && (forall|j: int| 0 <= j < k ==> new_groups[j] == old_groups[j])
            && (forall|j: int| k < j < new_groups.len() ==> new_groups[j] == old_groups[j - 1])
            && !has_success_uid(rs.take(i), uid)
            && new_groups[k].entry.uid == rs[i]->Ok_0.license.uid
            && new_groups[k].entry.name == rs[i]->Ok_0.license.issued_to
            && new_groups[k].entry.license_type == rs[i]->Ok_0.license.license_type
            && (new_groups[k].entry.max_resource_units, new_groups[k].entry.max_nodes)
                == capacity(rs[i]->Ok_0.license.license_type@, rs[i]->Ok_0.license)
            && new_groups[k].entry.total_consumed is None
            && new_groups[k].entry.clusters@ == seq![entry_of(rs[i]->Ok_0)]
            && new_groups[k].raw_sum == raw_of(rs[i])
            && new_groups[k].platinum_sum == platinum_of(rs[i]),
    ensures
        groups_sorted(new_groups),
        forall|j: int| 0 <= j < new_groups.len() ==> group_ok(rs.take(i + 1), #[trigger] new_groups[j]),
        forall|u: Seq<char>| #[trigger] has_success_uid(rs.take(i + 1), u)
            ==> exists|j: int| 0 <= j < new_groups.len() && #[trigger] new_groups[j].entry.uid@ == u,
{
    let p = rs.take(i);
    let q = rs.take(i + 1);
    assert(q.drop_last() =~= p);
    assert(q.last() == rs[i]);
    lemma_group_presence(p, uid);
    lemma_platinum_prefix(rs, i + 1, uid);
    assert(group_platinum_sum(q, uid) <= u64::MAX);
    assert forall|j: int| 0 <= j < new_groups.len() implies group_ok(q, #[trigger] new_groups[j]) by {
        if found {
            if j != k {
                assert(group_ok(p, old_groups[j]));
            } else {
                assert(group_ok(p, old_groups[k]));
            }
        } else {
            if j < k {
                assert(group_ok(p, old_groups[j]));
            } else if j > k {
                assert(group_ok(p, old_groups[j - 1]));
            } else {
                assert(rs[i]->Ok_0.license.uid@ == uid);
            }
        }
    }
    assert forall|a: int, b: int| 0 <= a < b < new_groups.len() implies seq_lt(#[trigger] new_groups[a].entry.uid@, #[trigger] new_groups[b].entry.uid@) by {
        if found {
            assert(new_groups[a].entry.uid@ == old_groups[a].entry.uid@);
            assert(new_groups[b].entry.uid@ == old_groups[b].entry.uid@);
        } else {
            if b < k {
            } else if b == k {
            } else if a == k {
                if b - 1 > k {
                    lemma_seq_lt_transitive(uid, old_groups[k].entry.uid@, old_groups[b - 1].entry.uid@);
                }
            } else if a < k {
                if b - 1 > k {
                    lemma_seq_lt_transitive(uid, old_groups[k].entry.uid@, old_groups[b - 1].entry.uid@);
                }
                lemma_seq_lt_transitive(old_groups[a].entry.uid@, uid, old_groups[b - 1].entry.uid@);
            } else {
            }
        }
    }
    assert forall|u: Seq<char>| #[trigger] has_success_uid(q, u)
        implies exists|j: int| 0 <= j < new_groups.len() && #[trigger] new_groups[j].entry.uid@ == u by {
        lemma_has_success_step(rs, i, u);
        if u == uid {
            assert(new_groups[k].entry.uid@ == u);
        } else {
            let j = choose|j: int| 0 <= j < old_groups.len() && #[trigger] old_groups[j].entry.uid@ == u;
            if found || j < k {
                assert(new_groups[j] == old_groups[j]);
            } else {
                assert(new_groups[j + 1] == old_groups[j]);
            }
        }
    }
}

// ── Laws of the built report ────────────────────────────────────────────────

/// No two license entries of a built report share a uid.
pub proof fn law_one_entry_per_license(rs: Seq<Result<ClusterConsumption, ClusterFailed>>, r: Report)
    requires
        built_report(rs, r),
    ensures
        forall|i: int, j: int| 0 <= i < r.licenses@.len() && 0 <= j < r.licenses@.len() && i != j
            ==> #[trigger] r.licenses@[i].uid@ != #[trigger] r.licenses@[j].uid@,
{
    assert forall|i: int, j: int| 0 <= i < r.licenses@.len() && 0 <= j < r.licenses@.len() && i != j
        implies #[trigger] r.licenses@[i].uid@ != #[trigger] r.licenses@[j].uid@ by {
        crate::text::lemma_seq_lt_irreflexive(r.licenses@[i].uid@);
        if i < j {
            assert(seq_lt(r.licenses@[i].uid@, r.licenses@[j].uid@));
        } else {
            assert(seq_lt(r.licenses@[j].uid@, r.licenses@[i].uid@));
        }
    }
}

proof fn lemma_group_holds_success(rs: Seq<Result<ClusterConsumption, ClusterFailed>>, i: int)
    requires
        0 <= i < rs.len(),
        rs[i] is Ok,
    ensures
        group_entries(rs, rs[i]->Ok_0.license.uid@).contains(entry_of(rs[i]->Ok_0)),
    decreases rs.len(),
{
    let uid = rs[i]->Ok_0.license.uid@;
    let g = group_entries(rs, uid);
    if i == rs.len() - 1 {
        assert(g.last() == entry_of(rs[i]->Ok_0));
    } else {
        let p = rs.drop_last();
        assert(p[i] == rs[i]);
        lemma_group_holds_success(p, i);
        let k = choose|k: int| 0 <= k < group_entries(p, uid).len() && group_entries(p, uid)[k] == entry_of(rs[i]->Ok_0);
        assert(g[k] == entry_of(rs[i]->Ok_0));
    }
}

/// Every cluster that was queried successfully appears in the entry of its
/// license.
pub proof fn law_every_success_reported(rs: Seq<Result<ClusterConsumption, ClusterFailed>>, r: Report, i: int)
    requires
        built_report(rs, r),
        0 <= i < rs.len(),
        rs[i] is Ok,
    ensures
        exists|j: int| 0 <= j < r.licenses@.len()
            && #[trigger] r.licenses@[j].uid@ == rs[i]->Ok_0.license.uid@
            && r.licenses@[j].clusters@.contains(entry_of(rs[i]->Ok_0)),
{
    let uid = rs[i]->Ok_0.license.uid@;
    assert(success_with_uid(rs[i], uid));
    assert(has_success_uid(rs, uid));
    let j = choose|j: int| 0 <= j < r.licenses@.len() && #[trigger] r.licenses@[j].uid@ == uid;
    assert(built_license(rs, r.licenses@[j]));
    lemma_group_holds_success(rs, i);
}

/// The Enterprise entry of a cluster in a built report carries that
/// cluster's ERUs rounded up to hundredths: the `consumed` of its Enterprise
/// detail, which covers its RAM by less than one hundredth of an ERU more,
/// never the raw byte count.
pub proof fn law_enterprise_entry_reports_rounded_erus(
    rs: Seq<Result<ClusterConsumption, ClusterFailed>>,
    r: Report,
    i: int,
    nodes: Seq<NodeData>,
)
    requires
        built_report(rs, r),
        0 <= i < rs.len(),
        rs[i] is Ok,
        detail_for("enterprise"@, nodes, rs[i]->Ok_0.detail),
    ensures
        exists|j: int, k: int| {
            &&& 0 <= j < r.licenses@.len()
            &&& 0 <= k < r.licenses@[j].clusters@.len()
            &&& r.licenses@[j].uid@ == rs[i]->Ok_0.license.uid@
            &&& (#[trigger] r.licenses@[j].clusters@[k]) matches ClusterEntry::Enterprise(e)
            &&& e.cluster_uid == rs[i]->Ok_0.cluster_uuid
            &&& e.report_time == Some(rs[i]->Ok_0.report_time)
            &&& e.consumed == rs[i]->Ok_0.detail->Enterprise_consumed
            &&& e.consumed * (ERU_BYTES as nat) >= 100 * total_memory(nodes)
            &&& e.consumed * (ERU_BYTES as nat) < 100 * total_memory(nodes) + ERU_BYTES
        },
{
    let c = rs[i]->Ok_0;
    law_every_success_reported(rs, r, i);
    law_enterprise_rounds_up_to_hundredths(nodes, c.detail);
    let j = choose|j: int| 0 <= j < r.licenses@.len()
        && #[trigger] r.licenses@[j].uid@ == c.license.uid@
        && r.licenses@[j].clusters@.contains(entry_of(c));
    let k = choose|k: int| 0 <= k < r.licenses@[j].clusters@.len() && r.licenses@[j].clusters@[k] == entry_of(c);
    assert(r.licenses@[j].clusters@[k] == entry_of(c));
}

/// The entry of a cluster names that cluster (name, uid, report time) and
/// carries the quantities of its consumption detail unchanged: the rounded
/// Enterprise hundredths, the Platinum quantity and reason, or both fallback
/// metrics.
pub proof fn law_entry_carries_detail(c: ClusterConsumption)
    ensures
        entry_uid(entry_of(c)) == c.cluster_uuid@,
        entry_name(entry_of(c)) == c.cluster_name@,
        entry_time(entry_of(c)) == Some(c.report_time),
        c.detail matches ConsumptionDetail::Enterprise { consumed, .. }
            ==> entry_of(c) matches ClusterEntry::Enterprise(e) && e.consumed == consumed,
        c.detail matches ConsumptionDetail::Platinum { consumed, reason }
            ==> entry_of(c) matches ClusterEntry::Platinum(p) && p.consumed == consumed && p.reason == reason,
        c.detail matches ConsumptionDetail::Fallback { number_of_platinum_nodes, number_of_enterprise_resource_units }
            ==> entry_of(c) matches ClusterEntry::Fallback(f)
                && f.number_of_platinum_nodes == number_of_platinum_nodes
                && f.number_of_enterprise_resource_units == number_of_enterprise_resource_units,
{
}

/// The total of an Enterprise license with clusters is its clusters' raw RAM
/// summed and then rounded up to whole ERUs (where that fits a `u64`): the
/// fewest whole ERUs that cover the sum.
pub proof fn law_enterprise_total_rounds_up_the_sum(rs: Seq<Result<ClusterConsumption, ClusterFailed>>, e: LicenseEntry)
    requires
        built_license(rs, e),
        e.license_type@ == "enterprise"@,
        e.clusters@.len() > 0,
        ceil_div(group_raw_sum(rs, e.uid@), ERU_BYTES as nat) <= u64::MAX,
    ensures
        e.total_consumed matches Some(t)
            && t * (ERU_BYTES as nat) >= group_raw_sum(rs, e.uid@)
            && t * (ERU_BYTES as nat) < group_raw_sum(rs, e.uid@) + ERU_BYTES,
{
    crate::calculation::lemma_ceil_div_bounds(group_raw_sum(rs, e.uid@), ERU_BYTES as nat);
}

proof fn lemma_failures_present(rs: Seq<Result<ClusterConsumption, ClusterFailed>>)
    ensures
        (failures(rs).len() > 0) == (exists|i: int| 0 <= i < rs.len() && (#[trigger] rs[i]) is Err),
    decreases rs.len(),
{
    if rs.len() > 0 {
        let p = rs.drop_last();
        lemma_failures_present(p);
        if exists|i: int| 0 <= i < p.len() && (#[trigger] p[i]) is Err {
            let i = choose|i: int| 0 <= i < p.len() && (#[trigger] p[i]) is Err;
            assert(rs[i] == p[i]);
        }
        if exists|i: int| 0 <= i < rs.len() && (#[trigger] rs[i]) is Err {
            let i = choose|i: int| 0 <= i < rs.len() && (#[trigger] rs[i]) is Err;
            if i < rs.len() - 1 {
                assert(p[i] == rs[i]);
            }
        }
    }
}

/// A built report counts as all-failed exactly when there were results and
/// every one of them is a failure.
pub proof fn law_all_failed(rs: Seq<Result<ClusterConsumption, ClusterFailed>>, r: Report)
    requires
        built_report(rs, r),
    ensures
        (r.licenses@.len() == 0 && r.errors@.len() > 0)
            == (rs.len() > 0 && forall|i: int| 0 <= i < rs.len() ==> (#[trigger] rs[i]) is Err),
{
    lemma_failures_present(rs);
    if r.licenses@.len() == 0 {
        assert forall|i: int| 0 <= i < rs.len() implies (#[trigger] rs[i]) is Err by {
            if rs[i] is Ok {
                let uid = rs[i]->Ok_0.license.uid@;
                assert(success_with_uid(rs[i], uid));
                assert(has_success_uid(rs, uid));
            }
        }
    } else {
        let e = r.licenses@[0];
        assert(built_license(rs, e));
        lemma_group_presence(rs, e.uid@);
        let i = choose|i: int| 0 <= i < rs.len() && #[trigger] success_with_uid(rs[i], e.uid@);
        assert(rs[i] is Ok);
    }
    if rs.len() > 0 && forall|i: int| 0 <= i < rs.len() ==> (#[trigger] rs[i]) is Err {
        assert(rs[0] is Err);
    }
}

} // verus!
