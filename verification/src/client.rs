//! What the library decides around querying a cluster: the endpoints asked,
//! how the answers become `ClusterData`, and how a failure is reported.

use vstd::prelude::*;
use crate::calculation::{ClusterData, LicenseMetadata, NodeData, ReportTime};
use crate::config::{Auth, ClusterConfig};
use crate::text::{concat, decimal, decimal_string};

verus! {

/// Error produced when querying a single cluster fails.
#[derive(Debug)]
pub struct ClusterFailed {
    pub alias: String,
    pub message: String,
}

/// The failure of `cluster`, with `message`.
pub fn fail(cluster: &ClusterConfig, message: String) -> (r: ClusterFailed)
    ensures
        r.alias == cluster.alias,
        r.message == message,
{
    ClusterFailed { alias: cluster.alias.clone(), message }
}

// ── Answers of the cluster ──────────────────────────────────────────────────

/// `GET /`: the cluster's identity.
#[derive(Debug)]
pub struct RootResponse {
    pub cluster_name: String,
    pub cluster_uuid: String,
}

/// `os.mem` of a node in `GET _nodes/stats`.
#[derive(Debug)]
pub struct MemStats {
    pub total_in_bytes: Option<u64>,
}

/// `os` of a node in `GET _nodes/stats`.
#[derive(Debug)]
pub struct OsStats {
    pub mem: Option<MemStats>,
}

/// One node of `GET _nodes/stats`.
#[derive(Debug)]
pub struct NodeStatEntry {
    pub roles: Vec<String>,
    pub os: Option<OsStats>,
}

/// `license` of `GET _license`.
#[derive(Debug)]
pub struct LicenseApiInfo {
    pub uid: Option<String>,
    pub license_type: String,
    pub issued_to: Option<String>,
    pub max_resource_units: Option<u32>,
    pub max_nodes: Option<u32>,
}

/// The memory a node reported: `os.mem.total_in_bytes`, where present.
pub open spec fn reported_memory(entry: NodeStatEntry) -> Option<u64> {
    match entry.os {
        Some(os) => match os.mem {
            Some(mem) => mem.total_in_bytes,
            None => None,
        },
        None => None,
    }
}

/// The node data of one `_nodes/stats` entry.
pub fn node_data(entry: NodeStatEntry) -> (r: NodeData)
    ensures
        r.roles == entry.roles,
        r.memory_bytes == reported_memory(entry),
{
    let memory_bytes = match entry.os {
        Some(os) => match os.mem {
            Some(mem) => mem.total_in_bytes,
            None => None,
        },
        None => None,
    };
    NodeData { roles: entry.roles, memory_bytes }
}

/// The message of a cluster whose license has no uid.
pub open spec fn missing_uid_text() -> Seq<char> {
    "license.uid missing in _license response"@
}

/// Normalize the answers of a cluster into `ClusterData`: the nodes in the
/// order given, a missing `issued_to` as the empty string; a license without
/// a uid fails the cluster.
pub fn cluster_data(
    cluster: &ClusterConfig,
    root: RootResponse,
    nodes: Vec<NodeStatEntry>,
    license: LicenseApiInfo,
    report_time: ReportTime,
) -> (r: Result<ClusterData, ClusterFailed>)
    ensures
        license.uid is None ==> (r matches Err(f) && f.alias == cluster.alias && f.message@ == missing_uid_text()),
        license.uid is Some ==> (r matches Ok(d) && {
            &&& d.cluster_name == root.cluster_name
            &&& d.cluster_uuid == root.cluster_uuid
            &&& d.nodes@.len() == nodes@.len()
            &&& forall|i: int| 0 <= i < nodes@.len() ==> (#[trigger] d.nodes@[i]).roles == nodes@[i].roles
                && d.nodes@[i].memory_bytes == reported_memory(nodes@[i])
            &&& d.license.uid == license.uid->0
            &&& d.license.license_type == license.license_type
            &&& (match license.issued_to {
                Some(t) => d.license.issued_to == t,
                None => d.license.issued_to@ == Seq::<char>::empty(),
            })
            &&& d.license.max_resource_units == license.max_resource_units
            &&& d.license.max_nodes == license.max_nodes
            &&& d.report_time == report_time
        }),
{
    let LicenseApiInfo { uid, license_type, issued_to, max_resource_units, max_nodes } = license;
    let uid = match uid {
        Some(u) => u,
        None => {
            return Err(fail(cluster, String::from_str("license.uid missing in _license response")));
        },
    };
    let ghost orig = nodes@;
    let n = nodes.len();
    let mut rest = nodes;
    let mut out: Vec<NodeData> = Vec::new();
    let mut i: usize = 0;
    while i < n
        invariant
            n == orig.len(),
            i <= n,
            rest@ == orig.skip(i as int),
            out@.len() == i,
            forall|j: int| 0 <= j < i ==> (#[trigger] out@[j]).roles == orig[j].roles
                && out@[j].memory_bytes == reported_memory(orig[j]),
        decreases n - i,
    {
        let e = rest.remove(0);
        proof {
            assert(e == orig[i as int]);
            assert(rest@ =~= orig.skip(i + 1));
        }
        out.push(node_data(e));
        i = i + 1;
    }
    let issued_to = match issued_to {
        Some(t) => t,
        None => String::new(),
    };
    Ok(ClusterData {
        cluster_name: root.cluster_name,
        cluster_uuid: root.cluster_uuid,
        nodes: out,
        license: LicenseMetadata { uid, license_type, issued_to, max_resource_units, max_nodes },
        report_time,
    })
}

// ── Requests ────────────────────────────────────────────────────────────────

/// The three requests made of a cluster.
#[derive(Debug, Clone, Copy, PartialEq, Eq, Structural)]
pub enum Endpoint {
    Root,
    NodesStats,
    License,
}

/// The path and query of an endpoint.
pub open spec fn endpoint_path(e: Endpoint) -> Seq<char> {
    match e {
        Endpoint::Root => "/"@,
        Endpoint::NodesStats => "/_nodes/stats?filter_path=**.mem.total_in_bytes,**.roles"@,
        Endpoint::License => "/_license"@,
    }
}

/// How a failure of an endpoint is labelled.
pub open spec fn endpoint_label(e: Endpoint) -> Seq<char> {
    match e {
        Endpoint::Root => "GET /"@,
        Endpoint::NodesStats => "GET _nodes/stats"@,
        Endpoint::License => "GET _license"@,
    }
}

/// The URL of an endpoint of `cluster`: `host:port` followed by its path.
pub fn endpoint_url(cluster: &ClusterConfig, e: Endpoint) -> (r: String)
    ensures
        r@ == cluster.host@ + ":"@ + decimal(cluster.port as nat) + endpoint_path(e),
{
    let mut s = concat(cluster.host.as_str(), ":");
    s.append(decimal_string(cluster.port as u64).as_str());
    match e {
        Endpoint::Root => s.append("/"),
        Endpoint::NodesStats => s.append("/_nodes/stats?filter_path=**.mem.total_in_bytes,**.roles"),
        Endpoint::License => s.append("/_license"),
    }
    s
}

/// The failure of `cluster` at endpoint `e`, with the error's text.
pub fn endpoint_failure(cluster: &ClusterConfig, e: Endpoint, detail: &str) -> (r: ClusterFailed)
    ensures
        r.alias == cluster.alias,
        r.message@ == endpoint_label(e) + ": "@ + detail@,
{
    let mut s = match e {
        Endpoint::Root => String::from_str("GET /"),
        Endpoint::NodesStats => String::from_str("GET _nodes/stats"),
        Endpoint::License => String::from_str("GET _license"),
    };
    s.append(": ");
    s.append(detail);
    fail(cluster, s)
}

/// How the HTTP client of a cluster checks certificates.
#[derive(Debug)]
pub enum TlsMode {
    /// `verify_certs: false`: certificates are not checked.
    AcceptInvalid,
    /// The PEM file at this path is the trusted CA.
    CustomRoot(String),
    /// The system's trust store.
    SystemRoots,
}

/// The TLS mode of a cluster: certificates go unchecked when `verify_certs`
/// is off; otherwise `ca_certs`, where given, is the trusted CA.
pub fn tls_mode(cluster: &ClusterConfig) -> (r: TlsMode)
    ensures
        !cluster.verify_certs ==> r is AcceptInvalid,
        cluster.verify_certs ==> match cluster.ca_certs {
            Some(p) => r matches TlsMode::CustomRoot(q) && q == p,
            None => r is SystemRoots,
        },
{
    if !cluster.verify_certs {
        TlsMode::AcceptInvalid
    } else {
        match &cluster.ca_certs {
            Some(p) => TlsMode::CustomRoot(p.clone()),
            None => TlsMode::SystemRoots,
        }
    }
}

/// The `Authorization` header value for API key authentication
/// (`ApiKey <key>`); none for Basic authentication, which the HTTP client
/// encodes itself.
pub fn api_key_header(auth: &Auth) -> (r: Option<String>)
    ensures
        match auth {
            Auth::ApiKey(key) => r matches Some(v) && v@ == "ApiKey "@ + key@,
            Auth::Basic { .. } => r is None,
        },
{
    match auth {
        Auth::ApiKey(key) => Some(concat("ApiKey ", key.as_str())),
        Auth::Basic { .. } => None,
    }
}

// ── Ordering the results ────────────────────────────────────────────────────

/// Pairs ordered strictly by their index.
pub open spec fn sorted_by_index<T>(s: Seq<(usize, T)>) -> bool {
    forall|i: int, j: int| 0 <= i < j < s.len() ==> (#[trigger] s[i]).0 < (#[trigger] s[j]).0
}

/// No index occurs twice.
pub open spec fn distinct_indices<T>(s: Seq<(usize, T)>) -> bool {
    forall|i: int, j: int| 0 <= i < s.len() && 0 <= j < s.len() && i != j ==> (#[trigger] s[i]).0 != (#[trigger] s[j]).0
}

fn insert_by_index<T>(out: &mut Vec<(usize, T)>, x: (usize, T)) -> (k: usize)
    requires
        sorted_by_index(old(out)@),
        forall|i: int| 0 <= i < old(out)@.len() ==> (#[trigger] old(out)@[i]).0 != x.0,
    ensures
        k <= old(out)@.len(),
        final(out)@ == old(out)@.insert(k as int, x),
        sorted_by_index(final(out)@),
{
    let len = out.len();
    let mut k: usize = 0;
    while k < len && out[k].0 < x.0
        invariant
            len == out@.len(),
            k <= len,
            forall|i: int| 0 <= i < k ==> (#[trigger] out@[i]).0 < x.0,
        decreases len - k,
    {
        k = k + 1;
    }
    let ghost old_out = out@;
    out.insert(k, x);
    proof {
        let s = out@;
        assert forall|i: int, j: int| 0 <= i < j < s.len() implies (#[trigger] s[i]).0 < (#[trigger] s[j]).0 by {
            if j < k {
                assert(s[i] == old_out[i] && s[j] == old_out[j]);
            } else if j == k {
                assert(s[i] == old_out[i]);
            } else if i == k {
                assert(s[j] == old_out[j - 1]);
                assert(old_out[k as int].0 <= old_out[j - 1].0);
            } else if i < k {
                assert(s[i] == old_out[i] && s[j] == old_out[j - 1]);
                assert(old_out[k as int].0 <= old_out[j - 1].0);
            } else {
                assert(s[i] == old_out[i - 1] && s[j] == old_out[j - 1]);
            }
        }
    }
    k
}

/// The results of the clusters put back in the order of their index (the
/// order of the configuration), whatever order they were collected in.
pub fn order_by_index<T>(indexed: Vec<(usize, T)>) -> (r: Vec<(usize, T)>)
    requires
        distinct_indices(indexed@),
    ensures
        r@.to_multiset() == indexed@.to_multiset(),
        sorted_by_index(r@),
{
    let ghost orig = indexed@;
    let n = indexed.len();
    let mut rest = indexed;
    let mut out: Vec<(usize, T)> = Vec::new();
    proof {
        assert(orig.skip(n as int) =~= Seq::<(usize, T)>::empty());
        assert(out@ =~= Seq::<(usize, T)>::empty());
    }
    while rest.len() > 0
        invariant
            n == orig.len(),
            rest@ == orig.take(rest@.len() as int),
            rest@.len() <= n,
            out@.to_multiset() == orig.skip(rest@.len() as int).to_multiset(),
            sorted_by_index(out@),
            distinct_indices(orig),
        decreases rest@.len(),
    {
        let m = rest.len();
        let ghost old_out = out@;
        let x = rest.pop().unwrap();
        proof {
            assert(x == orig[m - 1]);
            assert(rest@ =~= orig.take(m - 1));
            assert forall|i: int| 0 <= i < old_out.len() implies (#[trigger] old_out[i]).0 != x.0 by {
                let y = old_out[i];
                assert(old_out.contains(y));
                vstd::seq_lib::to_multiset_contains(old_out, y);
                vstd::seq_lib::to_multiset_contains(orig.skip(m as int), y);
                assert(orig.skip(m as int).contains(y));
                let j = choose|j: int| 0 <= j < orig.skip(m as int).len() && orig.skip(m as int)[j] == y;
                assert(orig[m + j] == y);
            }
        }
        let k = insert_by_index(&mut out, x);
        proof {
            assert(orig.skip(m - 1) =~= orig.skip(m as int).insert(0, x));
            vstd::seq_lib::to_multiset_insert(old_out, k as int, x);
            vstd::seq_lib::to_multiset_insert(orig.skip(m as int), 0, x);
        }
    }
    proof {
        assert(orig.skip(0) =~= orig);
    }
    out
}

} // verus!
