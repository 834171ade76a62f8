//! Per-cluster license consumption.
//!
//! Node memory is kept in bytes. One Enterprise Resource Unit (ERU) is 64 GiB,
//! i.e. `ERU_BYTES` bytes, so every quantity of the rules is an exact ratio of
//! integers: unrounded ERUs are `bytes / ERU_BYTES`, and ERUs rounded up to two
//! decimals are held as a count of hundredths.

use vstd::prelude::*;
use crate::text::str_eq;

verus! {

/// Bytes in one Enterprise Resource Unit: 64 GiB.
pub const ERU_BYTES: u128 = 68719476736u128;

/// The instant at which a cluster's data was collected: seconds since the Unix
/// epoch and the nanoseconds within that second.
#[derive(Clone, Copy, Debug, PartialEq, Eq, Structural)]
pub struct ReportTime {
    pub secs: i64,
    pub nanos: u32,
}

/// Strict chronological order of two report times.
pub open spec fn time_before(a: ReportTime, b: ReportTime) -> bool {
    a.secs < b.secs || (a.secs == b.secs && a.nanos < b.nanos)
}

impl ReportTime {
    /// The Unix epoch.
    pub fn epoch() -> (r: ReportTime)
        ensures
            r.secs == 0 && r.nanos == 0,
    {
        ReportTime { secs: 0, nanos: 0 }
    }

    /// Whether `self` is strictly earlier than `other`.
    pub fn is_before(&self, other: &ReportTime) -> (r: bool)
        ensures
            r == time_before(*self, *other),
    {
        self.secs < other.secs || (self.secs == other.secs && self.nanos < other.nanos)
    }
}

/// Per-node data: its roles and its total RAM in bytes, when the cluster
/// reported it.
#[derive(Debug)]
pub struct NodeData {
    pub roles: Vec<String>,
    pub memory_bytes: Option<u64>,
}

/// License metadata of a cluster.
#[derive(Debug)]
pub struct LicenseMetadata {
    pub uid: String,
    pub license_type: String,
    pub issued_to: String,
    pub max_resource_units: Option<u32>,
    pub max_nodes: Option<u32>,
}

/// Normalized data collected from a single cluster.
#[derive(Debug)]
pub struct ClusterData {
    pub cluster_name: String,
    pub cluster_uuid: String,
    pub nodes: Vec<NodeData>,
    pub license: LicenseMetadata,
    pub report_time: ReportTime,
}

/// Per-license-type consumption of one cluster.
#[derive(Debug)]
#[allow(inconsistent_fields)]
pub enum ConsumptionDetail {
    /// `consumed`: ERUs rounded up to two decimals, in hundredths.
    /// `consumed_raw`: unrounded ERUs, in units of `1 / ERU_BYTES` ERU (bytes of RAM).
    Enterprise { consumed: u128, consumed_raw: u128 },
    /// The larger of the qualifying node count and the qualifying RAM in whole
    /// ERUs, with the reason (`node count` or `Total RAM used`).
    Platinum { consumed: u64, reason: String },
    /// Both metrics, neither chosen: qualifying nodes, and ERUs rounded up to
    /// two decimals in hundredths.
    Fallback { number_of_platinum_nodes: u64, number_of_enterprise_resource_units: u128 },
}

/// Calculated license consumption of one cluster.
#[derive(Debug)]
pub struct ClusterConsumption {
    pub cluster_name: String,
    pub cluster_uuid: String,
    pub license: LicenseMetadata,
    pub detail: ConsumptionDetail,
    /// Some node reported no memory.
    pub is_partial: bool,
    pub report_time: ReportTime,
}

/// The roles that make a node count for a Platinum license.
pub open spec fn role_qualifies(role: Seq<char>) -> bool {
    ||| role == "data"@
    ||| role == "data_hot"@
    ||| role == "data_warm"@
    ||| role == "data_cold"@
    ||| role == "data_content"@
    ||| role == "ml"@
    ||| role == "master"@
}

/// A node qualifies when at least one of its roles does.
pub open spec fn node_qualifies(node: NodeData) -> bool {
    exists|i: int| 0 <= i < node.roles@.len() && #[trigger] role_qualifies(node.roles@[i]@)
}

pub open spec fn node_memory(node: NodeData) -> nat {
    match node.memory_bytes {
        Some(b) => b as nat,
        None => 0,
    }
}

/// Memory of all nodes that reported one.
pub open spec fn total_memory(nodes: Seq<NodeData>) -> nat
    decreases nodes.len(),
{
    if nodes.len() == 0 {
        0
    } else {
        total_memory(nodes.drop_last()) + node_memory(nodes.last())
    }
}

/// Memory of the qualifying nodes that reported one.
pub open spec fn qualifying_memory(nodes: Seq<NodeData>) -> nat
    decreases nodes.len(),
{
    if nodes.len() == 0 {
        0
    } else {
        qualifying_memory(nodes.drop_last()) + if node_qualifies(nodes.last()) {
            node_memory(nodes.last())
        } else {
            0
        }
    }
}

/// Number of qualifying nodes.
pub open spec fn qualifying_count(nodes: Seq<NodeData>) -> nat
    decreases nodes.len(),
{
    if nodes.len() == 0 {
        0
    } else {
        qualifying_count(nodes.drop_last()) + if node_qualifies(nodes.last()) {
            1nat
        } else {
            0nat
        }
    }
}

/// Some node reported no memory.
pub open spec fn has_missing_memory(nodes: Seq<NodeData>) -> bool {
    exists|i: int| 0 <= i < nodes.len() && (#[trigger] nodes[i]).memory_bytes is None
}

/// `a / b` rounded up.
pub open spec fn ceil_div(a: nat, b: nat) -> nat {
    ((a + b - 1) as nat) / b
}

/// `bytes` of RAM in ERUs, rounded up to two decimals, in hundredths.
pub open spec fn eru_hundredths(bytes: nat) -> nat {
    ceil_div(bytes * 100, ERU_BYTES as nat)
}

/// `bytes` of RAM in whole ERUs, rounded up.
pub open spec fn whole_erus(bytes: nat) -> nat {
    ceil_div(bytes, ERU_BYTES as nat)
}

/// `x`, or `u64::MAX` where `x` does not fit.
pub open spec fn saturate_u64(x: nat) -> u64 {
    if x <= u64::MAX {
        x as u64
    } else {
        u64::MAX
    }
}

/// The reason reported for a Platinum quantity.
pub open spec fn platinum_reason(node_count: nat, ram_quantity: nat) -> Seq<char> {
    if node_count >= ram_quantity {
        "node count"@
    } else {
        "Total RAM used"@
    }
}

/// What `calculate` reports for a license of type `license_type` over `nodes`.
pub open spec fn detail_for(license_type: Seq<char>, nodes: Seq<NodeData>, detail: ConsumptionDetail) -> bool {
    if license_type == "enterprise"@ {
        &&& detail matches ConsumptionDetail::Enterprise { consumed, consumed_raw }
        &&& consumed == eru_hundredths(total_memory(nodes))
        &&& consumed_raw == total_memory(nodes)
    } else if license_type == "platinum"@ {
        let count = qualifying_count(nodes);
        let ram = saturate_u64(whole_erus(qualifying_memory(nodes))) as nat;
        &&& detail matches ConsumptionDetail::Platinum { consumed, reason }
        &&& consumed == if count >= ram { count } else { ram }
        &&& reason@ == platinum_reason(count, ram)
    } else {
        &&& detail matches ConsumptionDetail::Fallback {
            number_of_platinum_nodes,
            number_of_enterprise_resource_units,
        }
        &&& number_of_platinum_nodes == qualifying_count(nodes)
        &&& number_of_enterprise_resource_units == eru_hundredths(total_memory(nodes))
    }
}

/// Whether `role` is one of the Platinum qualifying roles.
pub fn role_is_qualifying(role: &str) -> (r: bool)
    ensures
        r == role_qualifies(role@),
{
    str_eq(role, "data") || str_eq(role, "data_hot") || str_eq(role, "data_warm")
        || str_eq(role, "data_cold") || str_eq(role, "data_content") || str_eq(role, "ml")
        || str_eq(role, "master")
}

/// Whether the node has at least one qualifying role.
pub fn is_qualifying(node: &NodeData) -> (r: bool)
    ensures
        r == node_qualifies(*node),
{
    let n = node.roles.len();
    let mut i: usize = 0;
    while i < n
        invariant
            n == node.roles@.len(),
            i <= n,
            forall|j: int| 0 <= j < i ==> !role_qualifies(#[trigger] node.roles@[j]@),
        decreases n - i,
    {
        if role_is_qualifying(node.roles[i].as_str()) {
            assert(role_qualifies(node.roles@[i as int]@));
            return true;
        }
        i = i + 1;
    }
    false
}

/// `a / b` rounded up.
pub fn ceil_div_u128(a: u128, b: u128) -> (r: u128)
    requires
        b > 0,
    ensures
        r == ceil_div(a as nat, b as nat),
{
    let q = a / b;
    let m = a % b;
    proof {
        lemma_ceil_div_parts(a as nat, b as nat);
    }
    if m == 0 {
        q
    } else {
        q + 1
    }
}

proof fn lemma_ceil_div_parts(a: nat, b: nat)
    requires
        b > 0,
    ensures
        ceil_div(a, b) == if a % b == 0 { a / b } else { a / b + 1 },
        (a % b != 0 && a <= u128::MAX) ==> a / b < u128::MAX,
{
    let q = a / b;
    let m = a % b;
    assert(a == q * b + m) by (nonlinear_arith)
        requires b > 0, q == a / b, m == a % b;
    assert(0 <= m < b) by (nonlinear_arith)
        requires b > 0, m == a % b;
    let s = (a + b - 1) as nat;
    if m == 0 {
        assert(s == q * b + (b - 1));
        assert(s / b == q) by (nonlinear_arith)
            requires s == q * b + (b - 1), b > 0, q >= 0;
    } else {
        assert(s == (q + 1) * b + (m - 1)) by (nonlinear_arith)
            requires s == q * b + m + b - 1;
        assert(s / b == q + 1) by (nonlinear_arith)
            requires s == (q + 1) * b + (m - 1), b > 0, 0 <= m - 1 < b, q >= 0;
    }
    if m != 0 {
        assert(q <= a / 2) by (nonlinear_arith)
            requires b >= 2, q == a / b;
    }
}

/// `bytes` of RAM in ERUs rounded up to two decimals, in hundredths.
pub fn eru_hundredths_of(bytes: u128) -> (r: u128)
    ensures
        r == eru_hundredths(bytes as nat),
{
    let q = bytes / ERU_BYTES;
    let m = bytes % ERU_BYTES;
    proof {
        let b = ERU_BYTES as nat;
        let x = bytes as nat;
        assert(x == q * b + m) by (nonlinear_arith)
            requires b > 0, q == x / b, m == x % b;
        assert(m < b);
        assert(q <= x / 2) by (nonlinear_arith)
            requires b >= 2, q == x / b;
        // x * 100 = (100 q) b + 100 m, with 100 m < 100 b
        lemma_ceil_div_shift(x * 100, b, (100 * q) as nat, (100 * m) as nat);
    }
    let part = ceil_div_u128(m * 100, ERU_BYTES);
    100 * q + part
}

proof fn lemma_ceil_div_shift(a: nat, b: nat, k: nat, rest: nat)
    requires
        b > 0,
        a == k * b + rest,
    ensures
        ceil_div(a, b) == k + ceil_div(rest, b),
{
    let s = (rest + b - 1) as nat;
    assert((a + b - 1) as nat == k * b + s);
    assert((k * b + s) / b == k + s / b) by (nonlinear_arith)
        requires b > 0, s >= 0, k >= 0;
}

proof fn lemma_memory_bounds(nodes: Seq<NodeData>)
    ensures
        qualifying_memory(nodes) <= total_memory(nodes),
        total_memory(nodes) <= nodes.len() * (u64::MAX as nat),
        qualifying_count(nodes) <= nodes.len(),
    decreases nodes.len(),
{
    if nodes.len() > 0 {
        lemma_memory_bounds(nodes.drop_last());
        let n = nodes.len();
        assert((n - 1) * (u64::MAX as nat) + (u64::MAX as nat) == n * (u64::MAX as nat))
            by (nonlinear_arith);
    }
}

/// Calculate license consumption from normalized cluster data.
pub fn calculate(data: ClusterData) -> (r: ClusterConsumption)
    ensures
        r.cluster_name == data.cluster_name,
        r.cluster_uuid == data.cluster_uuid,
        r.license == data.license,
        r.report_time == data.report_time,
        r.is_partial == has_missing_memory(data.nodes@),
        detail_for(data.license.license_type@, data.nodes@, r.detail),
{
    let nodes = &data.nodes;
    let n = nodes.len();
    let mut total: u128 = 0;
    let mut qual_mem: u128 = 0;
    let mut qual_count: u64 = 0;
    let mut partial = false;
    let mut i: usize = 0;
    while i < n
        invariant
            n == nodes@.len(),
            i <= n,
            total == total_memory(nodes@.take(i as int)),
            qual_mem == qualifying_memory(nodes@.take(i as int)),
            qual_count == qualifying_count(nodes@.take(i as int)),
            partial == has_missing_memory(nodes@.take(i as int)),
        decreases n - i,
    {
        let node = &nodes[i];
        let prefix = Ghost(nodes@.take(i as int));
        let next = Ghost(nodes@.take(i + 1));
        proof {
            assert(next@.drop_last() =~= prefix@);
            lemma_memory_bounds(next@);
            assert((i + 1) * (u64::MAX as nat) <= (u64::MAX as nat) * (u64::MAX as nat))
                by (nonlinear_arith)
                requires i + 1 <= u64::MAX;
        }
        let q = is_qualifying(node);
        match node.memory_bytes {
            Some(b) => {
                total = total + b as u128;
                if q {
                    qual_mem = qual_mem + b as u128;
                }
            },
            None => {
                proof {
                    assert(next@[i as int] == nodes@[i as int]);
                }
                partial = true;
            },
        }
        if q {
            qual_count = qual_count + 1;
        }
        proof {
            if !partial {
                assert forall|j: int| 0 <= j < i + 1 implies (#[trigger] next@[j]).memory_bytes is Some by {
                    if j < i {
                        assert(next@[j] == prefix@[j]);
                    }
                }
            } else if nodes@[i as int].memory_bytes is Some {
                let j = choose|j: int| 0 <= j < prefix@.len() && (#[trigger] prefix@[j]).memory_bytes is None;
                assert(next@[j] == prefix@[j]);
            }
        }
        i = i + 1;
    }
    proof {
        assert(nodes@.take(n as int) =~= nodes@);
    }
    let is_enterprise = str_eq(data.license.license_type.as_str(), "enterprise");
    let is_platinum = str_eq(data.license.license_type.as_str(), "platinum");
    let detail = if is_enterprise {
        ConsumptionDetail::Enterprise { consumed: eru_hundredths_of(total), consumed_raw: total }
    } else if is_platinum {
        let units = ceil_div_u128(qual_mem, ERU_BYTES);
        let ram_quantity: u64 = if units <= u64::MAX as u128 {
            units as u64
        } else {
            u64::MAX
        };
        if qual_count >= ram_quantity {
            ConsumptionDetail::Platinum { consumed: qual_count, reason: String::from_str("node count") }
        } else {
            ConsumptionDetail::Platinum {
                consumed: ram_quantity,
                reason: String::from_str("Total RAM used"),
            }
        }
    } else {
        ConsumptionDetail::Fallback {
            number_of_platinum_nodes: qual_count,
            number_of_enterprise_resource_units: eru_hundredths_of(total),
        }
    };
    ClusterConsumption {
        cluster_name: data.cluster_name,
        cluster_uuid: data.cluster_uuid,
        license: data.license,
        detail,
        is_partial: partial,
        report_time: data.report_time,
    }
}

/// Sum of `f` over the nodes of `s`.
pub open spec fn sum_by(s: Seq<NodeData>, f: spec_fn(NodeData) -> nat) -> nat
    decreases s.len(),
{
    if s.len() == 0 {
        0
    } else {
        sum_by(s.drop_last(), f) + f(s.last())
    }
}

/// A node's memory, as `total_memory` adds it.
pub open spec fn memory_term() -> spec_fn(NodeData) -> nat {
    |n: NodeData| node_memory(n)
}

/// A node's memory where it qualifies, as `qualifying_memory` adds it.
pub open spec fn qualifying_memory_term() -> spec_fn(NodeData) -> nat {
    |n: NodeData| if node_qualifies(n) { node_memory(n) } else { 0 }
}

/// One for a qualifying node, as `qualifying_count` adds it.
pub open spec fn qualifying_count_term() -> spec_fn(NodeData) -> nat {
    |n: NodeData| if node_qualifies(n) { 1nat } else { 0nat }
}

proof fn lemma_sums_by(s: Seq<NodeData>)
    ensures
        total_memory(s) == sum_by(s, memory_term()),
        qualifying_memory(s) == sum_by(s, qualifying_memory_term()),
        qualifying_count(s) == sum_by(s, qualifying_count_term()),
    decreases s.len(),
{
    if s.len() > 0 {
        lemma_sums_by(s.drop_last());
    }
}

/// Taking out the node at `j` takes its term out of the sum.
proof fn lemma_sum_remove(s: Seq<NodeData>, f: spec_fn(NodeData) -> nat, j: int)
    requires
        0 <= j < s.len(),
    ensures
        sum_by(s, f) == sum_by(s.remove(j), f) + f(s[j]),
    decreases s.len(),
{
    if j == s.len() - 1 {
        assert(s.remove(j) =~= s.drop_last());
    } else {
        lemma_sum_remove(s.drop_last(), f, j);
        assert(s.remove(j).drop_last() =~= s.drop_last().remove(j));
        assert(s.remove(j).last() == s.last());
        assert(s.drop_last()[j] == s[j]);
    }
}

/// The same nodes in another order give the same sum.
proof fn lemma_sum_permutation(a: Seq<NodeData>, b: Seq<NodeData>, f: spec_fn(NodeData) -> nat)
    requires
        a.to_multiset() == b.to_multiset(),
    ensures
        sum_by(a, f) == sum_by(b, f),
    decreases a.len(),
{
    broadcast use vstd::seq_lib::group_to_multiset_ensures;
    if a.len() == 0 {
        assert(b.len() == b.to_multiset().len());
    } else {
        let k = a.len() - 1;
        let x = a[k];
        assert(a.contains(x));
        assert(a.to_multiset().count(x) > 0);
        assert(b.contains(x));
        let j = choose|j: int| 0 <= j < b.len() && b[j] == x;
        assert(a.drop_last() =~= a.remove(k));
        assert(a.remove(k).to_multiset() == a.to_multiset().remove(x));
        assert(b.remove(j).to_multiset() == b.to_multiset().remove(x));
        lemma_sum_permutation(a.drop_last(), b.remove(j), f);
        lemma_sum_remove(b, f, j);
    }
}

/// The order of the nodes never changes what a cluster consumes: two lists of
/// the same nodes, in any order, have the same qualifying count, qualifying
/// memory, total memory and missing memory, so every license type gets the
/// same consumption from both.
pub proof fn law_node_order_irrelevant(
    a: Seq<NodeData>,
    b: Seq<NodeData>,
    license_type: Seq<char>,
    detail: ConsumptionDetail,
)
    requires
        a.to_multiset() == b.to_multiset(),
    ensures
        qualifying_count(a) == qualifying_count(b),
        qualifying_memory(a) == qualifying_memory(b),
        total_memory(a) == total_memory(b),
        has_missing_memory(a) == has_missing_memory(b),
        detail_for(license_type, a, detail) == detail_for(license_type, b, detail),
{
    broadcast use vstd::seq_lib::group_to_multiset_ensures;
    lemma_sums_by(a);
    lemma_sums_by(b);
    lemma_sum_permutation(a, b, memory_term());
    lemma_sum_permutation(a, b, qualifying_memory_term());
    lemma_sum_permutation(a, b, qualifying_count_term());
    if has_missing_memory(a) {
        let i = choose|i: int| 0 <= i < a.len() && (#[trigger] a[i]).memory_bytes is None;
        assert(a.contains(a[i]));
        assert(a.to_multiset().count(a[i]) > 0);
        assert(b.contains(a[i]));
        let j = choose|j: int| 0 <= j < b.len() && b[j] == a[i];
        assert(b[j].memory_bytes is None);
    }
    if has_missing_memory(b) {
        let i = choose|i: int| 0 <= i < b.len() && (#[trigger] b[i]).memory_bytes is None;
        assert(b.contains(b[i]));
        assert(b.to_multiset().count(b[i]) > 0);
        assert(a.contains(b[i]));
        let j = choose|j: int| 0 <= j < a.len() && a[j] == b[i];
        assert(a[j].memory_bytes is None);
    }
}

/// A node without a qualifying role, wherever it stands among the nodes,
/// changes neither the qualifying node count nor the qualifying memory: it
/// counts for Enterprise and fallback ERUs only.
pub proof fn law_non_qualifying_node_ignored(nodes: Seq<NodeData>, node: NodeData, at: int)
    requires
        !node_qualifies(node),
        0 <= at <= nodes.len(),
    ensures
        qualifying_count(nodes.insert(at, node)) == qualifying_count(nodes),
        qualifying_memory(nodes.insert(at, node)) == qualifying_memory(nodes),
        total_memory(nodes.insert(at, node)) == total_memory(nodes) + node_memory(node),
{
    let s = nodes.insert(at, node);
    assert(s.remove(at) =~= nodes);
    assert(s[at] == node);
    lemma_sums_by(s);
    lemma_sums_by(nodes);
    lemma_sum_remove(s, memory_term(), at);
    lemma_sum_remove(s, qualifying_memory_term(), at);
    lemma_sum_remove(s, qualifying_count_term(), at);
}

/// A node with a qualifying role at any position among its roles qualifies,
/// and it adds one to the qualifying count and its memory to the qualifying
/// memory of any node list it joins.
pub proof fn law_any_qualifying_role_qualifies(nodes: Seq<NodeData>, node: NodeData, i: int)
    requires
        0 <= i < node.roles@.len(),
        role_qualifies(node.roles@[i]@),
    ensures
        node_qualifies(node),
        qualifying_count(nodes.push(node)) == qualifying_count(nodes) + 1,
        qualifying_memory(nodes.push(node)) == qualifying_memory(nodes) + node_memory(node),
        total_memory(nodes.push(node)) == total_memory(nodes) + node_memory(node),
{
    assert(nodes.push(node).drop_last() =~= nodes);
    assert(nodes.push(node).last() == node);
}

/// A node qualifies exactly when some role of it, at any position, qualifies;
/// so two nodes with the same roles in any order either both qualify or
/// neither does.
pub proof fn law_role_order_irrelevant(a: NodeData, b: NodeData)
    requires
        a.roles@.map_values(|r: String| r@).to_multiset() == b.roles@.map_values(|r: String| r@).to_multiset(),
    ensures
        node_qualifies(a) <==> exists|i: int| 0 <= i < a.roles@.len() && #[trigger] role_qualifies(a.roles@[i]@),
        node_qualifies(a) == node_qualifies(b),
{
    broadcast use vstd::seq_lib::group_to_multiset_ensures;
    let va = a.roles@.map_values(|r: String| r@);
    let vb = b.roles@.map_values(|r: String| r@);
    if node_qualifies(a) {
        let i = choose|i: int| 0 <= i < a.roles@.len() && #[trigger] role_qualifies(a.roles@[i]@);
        assert(va[i] == a.roles@[i]@);
        assert(va.contains(va[i]));
        assert(va.to_multiset().count(va[i]) > 0);
        assert(vb.contains(va[i]));
        let j = choose|j: int| 0 <= j < vb.len() && vb[j] == va[i];
        assert(vb[j] == b.roles@[j]@);
        assert(role_qualifies(b.roles@[j]@));
    }
    if node_qualifies(b) {
        let i = choose|i: int| 0 <= i < b.roles@.len() && #[trigger] role_qualifies(b.roles@[i]@);
        assert(vb[i] == b.roles@[i]@);
        assert(vb.contains(vb[i]));
        assert(vb.to_multiset().count(vb[i]) > 0);
        assert(va.contains(vb[i]));
        let j = choose|j: int| 0 <= j < va.len() && va[j] == vb[i];
        assert(va[j] == a.roles@[j]@);
        assert(role_qualifies(a.roles@[j]@));
    }
}

/// `ceil_div(a, b)` is the least multiple count of `b` that covers `a`.
pub proof fn lemma_ceil_div_bounds(a: nat, b: nat)
    requires
        b > 0,
    ensures
        ceil_div(a, b) * b >= a,
        ceil_div(a, b) * b < a + b,
{
    lemma_ceil_div_parts(a, b);
    let q = a / b;
    let m = a % b;
    assert(a == q * b + m && 0 <= m < b) by (nonlinear_arith)
        requires b > 0, q == a / b, m == a % b;
    if m == 0 {
        assert(ceil_div(a, b) * b == a);
    } else {
        assert(ceil_div(a, b) * b == q * b + b) by (nonlinear_arith)
            requires ceil_div(a, b) == q + 1;
    }
}

/// An Enterprise consumption is the cluster's RAM in ERUs rounded up to
/// hundredths: `consumed` hundredths of an ERU cover the `consumed_raw` bytes,
/// by less than one hundredth more, and `consumed_raw` is the total RAM.
pub proof fn law_enterprise_rounds_up_to_hundredths(nodes: Seq<NodeData>, detail: ConsumptionDetail)
    requires
        detail_for("enterprise"@, nodes, detail),
    ensures
        detail matches ConsumptionDetail::Enterprise { consumed, consumed_raw }
            && consumed_raw == total_memory(nodes)
            && consumed * (ERU_BYTES as nat) >= 100 * consumed_raw
            && consumed * (ERU_BYTES as nat) < 100 * consumed_raw + ERU_BYTES,
{
    let t = total_memory(nodes);
    lemma_ceil_div_bounds(t * 100, ERU_BYTES as nat);
}

/// A Platinum consumption is the larger of the qualifying node count and the
/// qualifying RAM in whole ERUs (capped at `u64::MAX`): it is at least the node
/// count, covers the qualifying RAM wherever that fits, is either the node
/// count or the fewest whole ERUs that cover the RAM, and its reason is
/// `node count` exactly when it is the node count.
pub proof fn law_platinum_takes_larger_quantity(nodes: Seq<NodeData>, detail: ConsumptionDetail)
    requires
        detail_for("platinum"@, nodes, detail),
    ensures
        detail matches ConsumptionDetail::Platinum { consumed, reason } && {
            let count = qualifying_count(nodes);
            let qm = qualifying_memory(nodes);
            &&& consumed >= count
            &&& whole_erus(qm) <= u64::MAX ==> consumed * (ERU_BYTES as nat) >= qm
            &&& consumed == count || consumed == u64::MAX
                || (consumed * (ERU_BYTES as nat) >= qm && (consumed - 1) * (ERU_BYTES as nat) < qm)
            &&& (reason@ == "node count"@ <==> consumed == count)
            &&& (reason@ == "node count"@ || reason@ == "Total RAM used"@)
        },
{
    reveal_strlit("node count");
    reveal_strlit("Total RAM used");
    reveal_strlit("platinum");
    reveal_strlit("enterprise");
    let qm = qualifying_memory(nodes);
    lemma_ceil_div_bounds(qm, ERU_BYTES as nat);
    let w = whole_erus(qm);
    let e = ERU_BYTES as nat;
    let count = qualifying_count(nodes);
    assert((w - 1) * e == w * e - e) by (nonlinear_arith);
    assert("node count"@.len() != "Total RAM used"@.len());
    if count >= w {
        assert(count * e >= w * e) by (nonlinear_arith)
            requires count >= w;
    }
    assert("platinum"@[0] != "enterprise"@[0]);
}

/// Fallback metrics (any license type but Enterprise and Platinum) report both
/// quantities: the qualifying node count, and the total RAM in ERUs rounded up
/// to hundredths, which covers the RAM by less than one hundredth more.
pub proof fn law_fallback_reports_both_metrics(license_type: Seq<char>, nodes: Seq<NodeData>, detail: ConsumptionDetail)
    requires
        license_type != "enterprise"@,
        license_type != "platinum"@,
        detail_for(license_type, nodes, detail),
    ensures
        detail matches ConsumptionDetail::Fallback { number_of_platinum_nodes, number_of_enterprise_resource_units }
            && number_of_platinum_nodes == qualifying_count(nodes)
            && number_of_enterprise_resource_units * (ERU_BYTES as nat) >= 100 * total_memory(nodes)
            && number_of_enterprise_resource_units * (ERU_BYTES as nat) < 100 * total_memory(nodes) + ERU_BYTES,
{
    lemma_ceil_div_bounds(total_memory(nodes) * 100, ERU_BYTES as nat);
}

/// The roles that count for Platinum are exactly data, data_hot, data_warm,
/// data_cold, data_content, ml and master; any other role (ingest,
/// data_frozen, transform, ...) does not count.
pub proof fn law_platinum_roles(role: Seq<char>)
    ensures
        role_qualifies(role) <==> seq![
            "data"@, "data_hot"@, "data_warm"@, "data_cold"@, "data_content"@, "ml"@, "master"@,
        ].contains(role),
{
    let names = seq!["data"@, "data_hot"@, "data_warm"@, "data_cold"@, "data_content"@, "ml"@, "master"@];
    if role_qualifies(role) {
        if role == "data"@ {
            assert(names[0] == role);
        } else if role == "data_hot"@ {
            assert(names[1] == role);
        } else if role == "data_warm"@ {
            assert(names[2] == role);
        } else if role == "data_cold"@ {
            assert(names[3] == role);
        } else if role == "data_content"@ {
            assert(names[4] == role);
        } else if role == "ml"@ {
            assert(names[5] == role);
        } else {
            assert(names[6] == role);
        }
    }
}

} // verus!
