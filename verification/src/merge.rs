//! Updating an existing report with a fresh one: which clusters of the
//! existing report have newer data, and the merge that keeps, replaces,
//! appends and retains cluster entries.

use vstd::prelude::*;
use crate::calculation::{ceil_div, saturate_u64, time_before, ReportTime};
use crate::report::{
    cluster_name_of, cluster_uid_of, entry_name, entry_time, entry_uid, report_time_of,
    ClusterEntry, EnterpriseClusterEntry, FallbackClusterEntry, LicenseEntry,
    PlatinumClusterEntry, Report,
};
use crate::text::str_eq;

verus! {

/// A license entry as a mathematical value.
pub struct LicenseView {
    pub name: Seq<char>,
    pub uid: Seq<char>,
    pub license_type: Seq<char>,
    pub max_resource_units: Option<u32>,
    pub max_nodes: Option<u32>,
    pub total_consumed: Option<u64>,
    pub clusters: Seq<ClusterEntry>,
}

impl View for LicenseEntry {
    type V = LicenseView;

    open spec fn view(&self) -> LicenseView {
        LicenseView {
            name: self.name@,
            uid: self.uid@,
            license_type: self.license_type@,
            max_resource_units: self.max_resource_units,
            max_nodes: self.max_nodes,
            total_consumed: self.total_consumed,
            clusters: self.clusters@,
        }
    }
}

impl DeepView for LicenseEntry {
    type V = LicenseView;

    open spec fn deep_view(&self) -> LicenseView {
        self@
    }
}

/// A cluster of the existing report that has newer data in the fresh one.
#[derive(Debug)]
pub struct UpdateCandidate {
    pub license_uid: String,
    pub license_name: String,
    pub cluster_uid: String,
    pub cluster_name: String,
}

/// A candidate as its license uid, license name, cluster uid and cluster name.
pub type CandidateView = (Seq<char>, Seq<char>, Seq<char>, Seq<char>);

impl View for UpdateCandidate {
    type V = CandidateView;

    open spec fn view(&self) -> CandidateView {
        (self.license_uid@, self.license_name@, self.cluster_uid@, self.cluster_name@)
    }
}

impl DeepView for UpdateCandidate {
    type V = CandidateView;

    open spec fn deep_view(&self) -> CandidateView {
        self@
    }
}

// ── Copies ──────────────────────────────────────────────────────────────────

/// A copy of a cluster entry.
pub fn copy_entry(e: &ClusterEntry) -> (r: ClusterEntry)
    ensures
        r == *e,
{
    match e {
        ClusterEntry::Enterprise(x) => ClusterEntry::Enterprise(
            EnterpriseClusterEntry {
                cluster_name: x.cluster_name.clone(),
                cluster_uid: x.cluster_uid.clone(),
                consumed: x.consumed,
                report_time: x.report_time,
            },
        ),
        ClusterEntry::Platinum(x) => ClusterEntry::Platinum(
            PlatinumClusterEntry {
                cluster_name: x.cluster_name.clone(),
                cluster_uid: x.cluster_uid.clone(),
                consumed: x.consumed,
                reason: x.reason.clone(),
                report_time: x.report_time,
            },
        ),
        ClusterEntry::Fallback(x) => ClusterEntry::Fallback(
            FallbackClusterEntry {
                cluster_name: x.cluster_name.clone(),
                cluster_uid: x.cluster_uid.clone(),
                number_of_platinum_nodes: x.number_of_platinum_nodes,
                number_of_enterprise_resource_units: x.number_of_enterprise_resource_units,
                report_time: x.report_time,
            },
        ),
    }
}

/// A copy of a sequence of cluster entries.
pub fn copy_entries(cs: &Vec<ClusterEntry>) -> (r: Vec<ClusterEntry>)
    ensures
        r@ == cs@,
{
    let mut out: Vec<ClusterEntry> = Vec::new();
    let n = cs.len();
    let mut i: usize = 0;
    while i < n
        invariant
            n == cs@.len(),
            i <= n,
            out@ == cs@.take(i as int),
        decreases n - i,
    {
        out.push(copy_entry(&cs[i]));
        assert(cs@.take(i + 1) =~= cs@.take(i as int).push(cs@[i as int]));
        i = i + 1;
    }
    assert(cs@.take(n as int) =~= cs@);
    out
}

/// A copy of a license entry.
pub fn copy_license(l: &LicenseEntry) -> (r: LicenseEntry)
    ensures
        r@ == l@,
{
    LicenseEntry {
        name: l.name.clone(),
        uid: l.uid.clone(),
        license_type: l.license_type.clone(),
        max_resource_units: l.max_resource_units,
        max_nodes: l.max_nodes,
        total_consumed: l.total_consumed,
        clusters: copy_entries(&l.clusters),
    }
}

// ── Lookups ─────────────────────────────────────────────────────────────────

/// `i` is the first license of `ls` with uid `uid`.
pub open spec fn is_first_license(ls: Seq<LicenseView>, uid: Seq<char>, i: int) -> bool {
    &&& 0 <= i < ls.len()
    &&& ls[i].uid == uid
    &&& forall|j: int| 0 <= j < i ==> (#[trigger] ls[j]).uid != uid
}

/// Index of the first license of `ls` with uid `uid`.
pub open spec fn first_license_index(ls: Seq<LicenseView>, uid: Seq<char>) -> Option<int> {
    if exists|i: int| is_first_license(ls, uid, i) {
        Some(choose|i: int| is_first_license(ls, uid, i))
    } else {
        None
    }
}

/// `k` is the last cluster of `cs` with cluster uid `uid`.
pub open spec fn is_last_cluster(cs: Seq<ClusterEntry>, uid: Seq<char>, k: int) -> bool {
    &&& 0 <= k < cs.len()
    &&& entry_uid(cs[k]) == uid
    &&& forall|j: int| k < j < cs.len() ==> entry_uid(#[trigger] cs[j]) != uid
}

/// Index of the last cluster of `cs` with cluster uid `uid`.
pub open spec fn last_cluster_index(cs: Seq<ClusterEntry>, uid: Seq<char>) -> Option<int> {
    if exists|k: int| is_last_cluster(cs, uid, k) {
        Some(choose|k: int| is_last_cluster(cs, uid, k))
    } else {
        None
    }
}

/// Some cluster of `cs` has cluster uid `uid`.
pub open spec fn has_cluster_uid(cs: Seq<ClusterEntry>, uid: Seq<char>) -> bool {
    exists|i: int| 0 <= i < cs.len() && entry_uid(#[trigger] cs[i]) == uid
}

/// The first license with uid `uid`.
pub fn find_first_license(ls: &Vec<LicenseEntry>, uid: &String) -> (r: Option<usize>)
    ensures
        match r {
            Some(i) => first_license_index(ls.deep_view(), uid@) == Some(i as int),
            None => first_license_index(ls.deep_view(), uid@) is None,
        },
{
    let ghost v = ls.deep_view();
    let n = ls.len();
    let mut i: usize = 0;
    while i < n
        invariant
            n == ls@.len(),
            v == ls.deep_view(),
            i <= n,
            forall|j: int| 0 <= j < i ==> (#[trigger] v[j]).uid != uid@,
        decreases n - i,
    {
        assert(v[i as int] == ls@[i as int]@);
        if ls[i].uid == *uid {
            proof {
                assert(is_first_license(v, uid@, i as int));
                assert forall|k: int| is_first_license(v, uid@, k) implies k == i by {
                    if k < i {
                        assert(v[k].uid != uid@);
                    } else if k > i {
                        assert(v[i as int].uid == uid@);
                    }
                }
            }
            return Some(i);
        }
        i = i + 1;
    }
    None
}

/// The last cluster with cluster uid `uid`.
pub fn find_last_cluster(cs: &Vec<ClusterEntry>, uid: &String) -> (r: Option<usize>)
    ensures
        match r {
            Some(k) => last_cluster_index(cs@, uid@) == Some(k as int),
            None => last_cluster_index(cs@, uid@) is None && !has_cluster_uid(cs@, uid@),
        },
{
    let n = cs.len();
    let mut i: usize = n;
    while i > 0
        invariant
            n == cs@.len(),
            i <= n,
            forall|j: int| i <= j < n ==> entry_uid(#[trigger] cs@[j]) != uid@,
        decreases i,
    {
        if *cluster_uid_of(&cs[i - 1]) == *uid {
            proof {
                let k = i - 1;
                assert(is_last_cluster(cs@, uid@, k));
                assert forall|m: int| is_last_cluster(cs@, uid@, m) implies m == k by {
                    if m < k {
                        assert(entry_uid(cs@[k]) == uid@);
                    }
                }
            }
            return Some(i - 1);
        }
        i = i - 1;
    }
    None
}

/// Whether some cluster of `cs[lo..hi]` has cluster uid `uid`.
pub fn has_uid_in(cs: &Vec<ClusterEntry>, lo: usize, hi: usize, uid: &String) -> (r: bool)
    requires
        lo <= hi <= cs@.len(),
    ensures
        r == has_cluster_uid(cs@.subrange(lo as int, hi as int), uid@),
{
    let ghost s = cs@.subrange(lo as int, hi as int);
    let mut i = lo;
    while i < hi
        invariant
            lo <= i <= hi <= cs@.len(),
            s == cs@.subrange(lo as int, hi as int),
            forall|j: int| lo <= j < i ==> entry_uid(#[trigger] cs@[j]) != uid@,
        decreases hi - i,
    {
        if *cluster_uid_of(&cs[i]) == *uid {
            assert(s[i - lo] == cs@[i as int]);
            return true;
        }
        i = i + 1;
    }
    proof {
        assert forall|j: int| 0 <= j < s.len() implies entry_uid(#[trigger] s[j]) != uid@ by {
            assert(s[j] == cs@[lo + j]);
        }
    }
    false
}

// ── Update candidates ───────────────────────────────────────────────────────

/// An existing entry is older than the fresh one: it has no report time (it
/// counts as the epoch), or both have one and the existing one is earlier.
pub open spec fn is_stale(existing: Option<ReportTime>, fresh: Option<ReportTime>) -> bool {
    match (existing, fresh) {
        (None, _) => true,
        (Some(old), Some(new)) => time_before(old, new),
        _ => false,
    }
}

/// Whether the existing entry is older than the fresh one.
pub fn stale(existing: Option<ReportTime>, fresh: Option<ReportTime>) -> (r: bool)
    ensures
        r == is_stale(existing, fresh),
{
    match (existing, fresh) {
        (None, _) => true,
        (Some(old), Some(new)) => old.is_before(&new),
        _ => false,
    }
}

/// The candidates among the fresh clusters `fcs` of license `el`, in order.
pub open spec fn license_candidates(el: LicenseView, fcs: Seq<ClusterEntry>) -> Seq<CandidateView>
    decreases fcs.len(),
{
    if fcs.len() == 0 {
        seq![]
    } else {
        let prev = license_candidates(el, fcs.drop_last());
        let fc = fcs.last();
        match last_cluster_index(el.clusters, entry_uid(fc)) {
            Some(k) => if is_stale(entry_time(el.clusters[k]), entry_time(fc)) {
                prev.push((el.uid, el.name, entry_uid(fc), entry_name(fc)))
            } else {
                prev
            },
            None => prev,
        }
    }
}

/// The clusters of the existing licenses that have newer data in the fresh
/// licenses: for each fresh license, in order, the first existing license of
/// its uid; for each of its fresh clusters, in order, the last existing
/// cluster of that cluster uid, when it is stale.
pub open spec fn update_candidates(existing: Seq<LicenseView>, fresh: Seq<LicenseView>) -> Seq<CandidateView>
    decreases fresh.len(),
{
    if fresh.len() == 0 {
        seq![]
    } else {
        let prev = update_candidates(existing, fresh.drop_last());
        match first_license_index(existing, fresh.last().uid) {
            Some(i) => prev + license_candidates(existing[i], fresh.last().clusters),
            None => prev,
        }
    }
}

/// All clusters of `existing` that have a matching cluster uid in `fresh`
/// with a newer report time (or where the existing entry has none).
pub fn find_update_candidates(existing: &Report, fresh: &Report) -> (r: Vec<UpdateCandidate>)
    ensures
        r.deep_view() == update_candidates(existing.licenses.deep_view(), fresh.licenses.deep_view()),
{
    let ghost ex = existing.licenses.deep_view();
    let ghost fr = fresh.licenses.deep_view();
    let mut out: Vec<UpdateCandidate> = Vec::new();
    let n = fresh.licenses.len();
    let mut fi: usize = 0;
    while fi < n
        invariant
            n == fr.len(),
            fr == fresh.licenses.deep_view(),
            ex == existing.licenses.deep_view(),
            fi <= n,
            out.deep_view() == update_candidates(ex, fr.take(fi as int)),
        decreases n - fi,
    {
        let fl = &fresh.licenses[fi];
        proof {
            assert(fr.take(fi + 1).drop_last() =~= fr.take(fi as int));
            assert(fr.take(fi + 1).last() == fl@);
        }
        match find_first_license(&existing.licenses, &fl.uid) {
            None => {},
            Some(ei) => {
                let el = &existing.licenses[ei];
                let ghost base = out.deep_view();
                proof {
                    assert(ex[ei as int] == el@);
                    assert(base + license_candidates(el@, fl.clusters@.take(0)) =~= base);
                }
                let m = fl.clusters.len();
                let mut ci: usize = 0;
                while ci < m
                    invariant
                        m == fl.clusters@.len(),
                        ci <= m,
                        out.deep_view() == base + license_candidates(el@, fl.clusters@.take(ci as int)),
                    decreases m - ci,
                {
                    let fc = &fl.clusters[ci];
                    let fu = cluster_uid_of(fc);
                    let ghost before = out.deep_view();
                    proof {
                        assert(fl.clusters@.take(ci + 1).drop_last() =~= fl.clusters@.take(ci as int));
                        assert(fl.clusters@.take(ci + 1).last() == *fc);
                    }
                    match find_last_cluster(&el.clusters, fu) {
                        None => {},
                        Some(k) => {
                            if stale(report_time_of(&el.clusters[k]), report_time_of(fc)) {
                                out.push(
                                    UpdateCandidate {
                                        license_uid: el.uid.clone(),
                                        license_name: el.name.clone(),
                                        cluster_uid: fu.clone(),
                                        cluster_name: cluster_name_of(fc).clone(),
                                    },
                                );
                                proof {
                                    assert(out.deep_view() =~= before.push(
                                        (el.uid@, el.name@, entry_uid(*fc), entry_name(*fc)),
                                    ));
                                }
                            }
                        },
                    }
                    ci = ci + 1;
                }
                proof {
                    assert(fl.clusters@.take(m as int) =~= fl.clusters@);
                }
            },
        }
        fi = fi + 1;
    }
    proof {
        assert(fr.take(n as int) =~= fr);
    }
    out
}

proof fn lemma_license_candidate_present(el: LicenseView, fcs: Seq<ClusterEntry>, j: int, k: int)
    requires
        0 <= j < fcs.len(),
        is_last_cluster(el.clusters, entry_uid(fcs[j]), k),
        is_stale(entry_time(el.clusters[k]), entry_time(fcs[j])),
    ensures
        license_candidates(el, fcs).contains((el.uid, el.name, entry_uid(fcs[j]), entry_name(fcs[j]))),
    decreases fcs.len(),
{
    let x = (el.uid, el.name, entry_uid(fcs[j]), entry_name(fcs[j]));
    let prev = license_candidates(el, fcs.drop_last());
    let res = license_candidates(el, fcs);
    lemma_last_index_is(el.clusters, entry_uid(fcs[j]), k);
    if j == fcs.len() - 1 {
        assert(res == prev.push(x));
        assert(res[prev.len() as int] == x);
    } else {
        assert(fcs.drop_last()[j] == fcs[j]);
        lemma_license_candidate_present(el, fcs.drop_last(), j, k);
        let m = choose|m: int| 0 <= m < prev.len() && prev[m] == x;
        assert(res[m] == x);
    }
}

proof fn lemma_update_candidate_present(
    existing: Seq<LicenseView>,
    fresh: Seq<LicenseView>,
    f: int,
    i: int,
    x: CandidateView,
)
    requires
        0 <= f < fresh.len(),
        first_license_index(existing, fresh[f].uid) == Some(i),
        license_candidates(existing[i], fresh[f].clusters).contains(x),
    ensures
        update_candidates(existing, fresh).contains(x),
    decreases fresh.len(),
{
    let prev = update_candidates(existing, fresh.drop_last());
    let res = update_candidates(existing, fresh);
    if f == fresh.len() - 1 {
        let lc = license_candidates(existing[i], fresh[f].clusters);
        assert(res == prev + lc);
        let m = choose|m: int| 0 <= m < lc.len() && lc[m] == x;
        assert(res[prev.len() + m] == x);
    } else {
        assert(fresh.drop_last()[f] == fresh[f]);
        lemma_update_candidate_present(existing, fresh.drop_last(), f, i, x);
        let m = choose|m: int| 0 <= m < prev.len() && prev[m] == x;
        assert(res[m] == x);
    }
}

/// Every fresh cluster with newer data is offered, whatever the other
/// clusters of its license: where the `f`-th fresh license has the same uid
/// as the existing license `i` (the first of that uid), and its `j`-th
/// cluster has the cluster uid of the existing cluster `k` (the last of that
/// uid in license `i`) whose report time is older or missing, the candidates
/// hold (license uid, license name, cluster uid, cluster name) of it.
pub proof fn law_every_stale_cluster_is_candidate(
    existing: Seq<LicenseView>,
    fresh: Seq<LicenseView>,
    f: int,
    i: int,
    j: int,
    k: int,
)
    requires
        0 <= f < fresh.len(),
        is_first_license(existing, fresh[f].uid, i),
        0 <= j < fresh[f].clusters.len(),
        is_last_cluster(existing[i].clusters, entry_uid(fresh[f].clusters[j]), k),
        is_stale(entry_time(existing[i].clusters[k]), entry_time(fresh[f].clusters[j])),
    ensures
        update_candidates(existing, fresh).contains(
            (existing[i].uid, existing[i].name, entry_uid(fresh[f].clusters[j]), entry_name(fresh[f].clusters[j])),
        ),
{
    lemma_first_index_is(existing, fresh[f].uid, i);
    lemma_license_candidate_present(existing[i], fresh[f].clusters, j, k);
    lemma_update_candidate_present(
        existing,
        fresh,
        f,
        i,
        (existing[i].uid, existing[i].name, entry_uid(fresh[f].clusters[j]), entry_name(fresh[f].clusters[j])),
    );
}

proof fn lemma_license_candidate_source(el: LicenseView, fcs: Seq<ClusterEntry>, x: CandidateView)
    requires
        license_candidates(el, fcs).contains(x),
    ensures
        exists|j: int, k: int| {
            &&& 0 <= j < fcs.len()
            &&& #[trigger] is_last_cluster(el.clusters, entry_uid(fcs[j]), k)
            &&& is_stale(entry_time(el.clusters[k]), entry_time(fcs[j]))
            &&& x == (el.uid, el.name, entry_uid(fcs[j]), entry_name(fcs[j]))
        },
    decreases fcs.len(),
{
    let prev = license_candidates(el, fcs.drop_last());
    let fc = fcs.last();
    let n = fcs.len() - 1;
    if prev.contains(x) {
        lemma_license_candidate_source(el, fcs.drop_last(), x);
        let (j, k) = choose|j: int, k: int| {
            &&& 0 <= j < fcs.drop_last().len()
            &&& #[trigger] is_last_cluster(el.clusters, entry_uid(fcs.drop_last()[j]), k)
            &&& is_stale(entry_time(el.clusters[k]), entry_time(fcs.drop_last()[j]))
            &&& x == (el.uid, el.name, entry_uid(fcs.drop_last()[j]), entry_name(fcs.drop_last()[j]))
        };
        assert(fcs.drop_last()[j] == fcs[j]);
        assert(is_last_cluster(el.clusters, entry_uid(fcs[j]), k));
    } else {
        let m = choose|m: int| 0 <= m < license_candidates(el, fcs).len() && license_candidates(el, fcs)[m] == x;
        let k = last_cluster_index(el.clusters, entry_uid(fc))->0;
        assert(last_cluster_index(el.clusters, entry_uid(fc)) is Some);
        assert(is_last_cluster(el.clusters, entry_uid(fc), k));
        assert(m == prev.len()) by {
            if m < prev.len() {
                assert(prev[m] == x);
            }
        }
        assert(is_last_cluster(el.clusters, entry_uid(fcs[n]), k));
    }
}

proof fn lemma_update_candidate_source(existing: Seq<LicenseView>, fresh: Seq<LicenseView>, x: CandidateView)
    requires
        update_candidates(existing, fresh).contains(x),
    ensures
        exists|f: int, i: int| {
            &&& 0 <= f < fresh.len()
            &&& #[trigger] is_first_license(existing, fresh[f].uid, i)
            &&& license_candidates(existing[i], fresh[f].clusters).contains(x)
        },
    decreases fresh.len(),
{
    let prev = update_candidates(existing, fresh.drop_last());
    let n = fresh.len() - 1;
    if prev.contains(x) {
        lemma_update_candidate_source(existing, fresh.drop_last(), x);
        let (f, i) = choose|f: int, i: int| {
            &&& 0 <= f < fresh.drop_last().len()
            &&& #[trigger] is_first_license(existing, fresh.drop_last()[f].uid, i)
            &&& license_candidates(existing[i], fresh.drop_last()[f].clusters).contains(x)
        };
        assert(fresh.drop_last()[f] == fresh[f]);
        assert(is_first_license(existing, fresh[f].uid, i));
    } else {
        let res = update_candidates(existing, fresh);
        let m = choose|m: int| 0 <= m < res.len() && res[m] == x;
        let i = first_license_index(existing, fresh[n].uid)->0;
        assert(first_license_index(existing, fresh[n].uid) is Some);
        assert(is_first_license(existing, fresh[n].uid, i));
        let lc = license_candidates(existing[i], fresh[n].clusters);
        assert(res == prev + lc);
        assert(m >= prev.len()) by {
            if m < prev.len() {
                assert(prev[m] == x);
            }
        }
        assert(lc[m - prev.len()] == x);
        assert(lc.contains(x));
    }
}

/// Only clusters with newer data are offered: every candidate is the license
/// uid and name of the first existing license of some fresh license's uid, and
/// the cluster uid and name of a fresh cluster of it whose last existing entry
/// (same cluster uid) has an older or missing report time.
pub proof fn law_every_candidate_is_stale(existing: Seq<LicenseView>, fresh: Seq<LicenseView>, x: CandidateView)
    requires
        update_candidates(existing, fresh).contains(x),
    ensures
        exists|f: int, i: int, j: int, k: int| {
            &&& 0 <= f < fresh.len()
            &&& is_first_license(existing, fresh[f].uid, i)
            &&& 0 <= j < fresh[f].clusters.len()
            &&& #[trigger] is_last_cluster(existing[i].clusters, entry_uid(fresh[f].clusters[j]), k)
            &&& is_stale(entry_time(existing[i].clusters[k]), entry_time(fresh[f].clusters[j]))
            &&& x == (existing[i].uid, existing[i].name, entry_uid(fresh[f].clusters[j]), entry_name(fresh[f].clusters[j]))
        },
{
    lemma_update_candidate_source(existing, fresh, x);
    let (f, i) = choose|f: int, i: int| {
        &&& 0 <= f < fresh.len()
        &&& #[trigger] is_first_license(existing, fresh[f].uid, i)
        &&& license_candidates(existing[i], fresh[f].clusters).contains(x)
    };
    lemma_license_candidate_source(existing[i], fresh[f].clusters, x);
    let (j, k) = choose|j: int, k: int| {
        &&& 0 <= j < fresh[f].clusters.len()
        &&& #[trigger] is_last_cluster(existing[i].clusters, entry_uid(fresh[f].clusters[j]), k)
        &&& is_stale(entry_time(existing[i].clusters[k]), entry_time(fresh[f].clusters[j]))
        &&& x == (existing[i].uid, existing[i].name, entry_uid(fresh[f].clusters[j]), entry_name(fresh[f].clusters[j]))
    };
    assert(is_last_cluster(existing[i].clusters, entry_uid(fresh[f].clusters[j]), k));
}

/// A fresh cluster has newer data than license `el`: `el` has an entry of its
/// cluster uid, and the last such entry is older or has no report time.
pub open spec fn has_newer_data(el: LicenseView) -> spec_fn(ClusterEntry) -> bool {
    |fc: ClusterEntry| exists|k: int| #[trigger] is_last_cluster(el.clusters, entry_uid(fc), k)
        && is_stale(entry_time(el.clusters[k]), entry_time(fc))
}

/// The candidate offered for the fresh cluster `fc` of license `el`.
pub open spec fn candidate_of(el: LicenseView) -> spec_fn(ClusterEntry) -> CandidateView {
    |fc: ClusterEntry| (el.uid, el.name, entry_uid(fc), entry_name(fc))
}

/// The candidates of one license are exactly its fresh clusters with newer
/// data, each once, in fresh order, as (license uid, license name, cluster
/// uid, cluster name).
pub proof fn law_license_candidates_are_the_newer_clusters(el: LicenseView, fcs: Seq<ClusterEntry>)
    ensures
        license_candidates(el, fcs) == fcs.filter(has_newer_data(el)).map_values(candidate_of(el)),
    decreases fcs.len(),
{
    reveal(Seq::filter);
    let f = candidate_of(el);
    let p = has_newer_data(el);
    if fcs.len() == 0 {
        assert(fcs.filter(p) =~= Seq::<ClusterEntry>::empty());
        assert(fcs.filter(p).map_values(f) =~= Seq::<CandidateView>::empty());
    } else {
        let init = fcs.drop_last();
        let fc = fcs.last();
        law_license_candidates_are_the_newer_clusters(el, init);
        let sub = init.filter(p);
        let prev = license_candidates(el, init);
        assert(prev == sub.map_values(f));
        if p(fc) {
            let k = choose|k: int| #[trigger] is_last_cluster(el.clusters, entry_uid(fc), k)
                && is_stale(entry_time(el.clusters[k]), entry_time(fc));
            lemma_last_index_is(el.clusters, entry_uid(fc), k);
            assert(fcs.filter(p) == sub.push(fc));
            assert(license_candidates(el, fcs) == prev.push(f(fc)));
            assert(sub.push(fc).map_values(f) =~= sub.map_values(f).push(f(fc)));
        } else {
            assert(fcs.filter(p) == sub);
            if last_cluster_index(el.clusters, entry_uid(fc)) is Some {
                let k = last_cluster_index(el.clusters, entry_uid(fc))->0;
                assert(is_last_cluster(el.clusters, entry_uid(fc), k));
            }
            assert(license_candidates(el, fcs) == prev);
        }
    }
}

// ── Totals of a merged license ──────────────────────────────────────────────

/// Sum of the `consumed` hundredths of the Enterprise entries.
pub open spec fn enterprise_hundredths_sum(cs: Seq<ClusterEntry>) -> nat
    decreases cs.len(),
{
    if cs.len() == 0 {
        0
    } else {
        enterprise_hundredths_sum(cs.drop_last()) + match cs.last() {
            ClusterEntry::Enterprise(e) => e.consumed as nat,
            _ => 0,
        }
    }
}

/// Sum of the `consumed` quantities of the Platinum entries.
pub open spec fn platinum_consumed_sum(cs: Seq<ClusterEntry>) -> nat
    decreases cs.len(),
{
    if cs.len() == 0 {
        0
    } else {
        platinum_consumed_sum(cs.drop_last()) + match cs.last() {
            ClusterEntry::Platinum(p) => p.consumed as nat,
            _ => 0,
        }
    }
}

pub open spec fn has_enterprise(cs: Seq<ClusterEntry>) -> bool {
    exists|i: int| 0 <= i < cs.len() && (#[trigger] cs[i]) is Enterprise
}

pub open spec fn has_platinum(cs: Seq<ClusterEntry>) -> bool {
    exists|i: int| 0 <= i < cs.len() && (#[trigger] cs[i]) is Platinum
}

/// `total_consumed` recomputed from the cluster entries of a license: for
/// Enterprise the per-cluster values summed and rounded up to an integer, for
/// Platinum their sum; nothing where no entry of that kind is present, and
/// nothing for other types.
pub open spec fn recomputed_total(license_type: Seq<char>, cs: Seq<ClusterEntry>) -> Option<u64> {
    if license_type == "enterprise"@ {
        if has_enterprise(cs) {
            Some(saturate_u64(ceil_div(enterprise_hundredths_sum(cs), 100)))
        } else {
            None
        }
    } else if license_type == "platinum"@ {
        if has_platinum(cs) {
            Some(saturate_u64(platinum_consumed_sum(cs)))
        } else {
            None
        }
    } else {
        None
    }
}

spec fn cap_u128(x: nat) -> nat {
    if x <= u128::MAX { x } else { u128::MAX as nat }
}

proof fn lemma_capped_hundredths(x: nat)
    ensures
        saturate_u64(ceil_div(cap_u128(x), 100)) == saturate_u64(ceil_div(x, 100)),
        saturate_u64(cap_u128(x)) == saturate_u64(x),
{
    if x > u128::MAX {
        let m = u128::MAX as nat;
        assert(ceil_div(m, 100) >= m / 100) by (nonlinear_arith)
            requires ceil_div(m, 100) == ((m + 99) as nat) / 100;
        assert(ceil_div(x, 100) >= ceil_div(m, 100)) by (nonlinear_arith)
            requires x > m, ceil_div(m, 100) == ((m + 99) as nat) / 100,
                ceil_div(x, 100) == ((x + 99) as nat) / 100;
    }
}

/// Recompute `total_consumed` from cluster entries (used after a merge).
pub fn recompute_total_consumed(license_type: &str, clusters: &Vec<ClusterEntry>) -> (r: Option<u64>)
    ensures
        r == recomputed_total(license_type@, clusters@),
{
    let n = clusters.len();
    let mut ent: u128 = 0;
    let mut plat: u128 = 0;
    let mut any_ent = false;
    let mut any_plat = false;
    let mut i: usize = 0;
    while i < n
        invariant
            n == clusters@.len(),
            i <= n,
            ent == cap_u128(enterprise_hundredths_sum(clusters@.take(i as int))),
            plat == cap_u128(platinum_consumed_sum(clusters@.take(i as int))),
            any_ent == has_enterprise(clusters@.take(i as int)),
            any_plat == has_platinum(clusters@.take(i as int)),
        decreases n - i,
    {
        let ghost p = clusters@.take(i as int);
        let ghost q = clusters@.take(i + 1);
        proof {
            assert(q.drop_last() =~= p);
            assert(q.last() == clusters@[i as int]);
            assert(q[i as int] == clusters@[i as int]);
            assert forall|j: int| 0 <= j < i implies #[trigger] q[j] == p[j] by {}
        }
        match &clusters[i] {
            ClusterEntry::Enterprise(e) => {
                ent = ent.saturating_add(e.consumed);
                any_ent = true;
            },
            ClusterEntry::Platinum(x) => {
                plat = plat.saturating_add(x.consumed as u128);
                any_plat = true;
            },
            _ => {},
        }
        proof {
            if has_enterprise(q) && !any_ent {
                let j = choose|j: int| 0 <= j < q.len() && (#[trigger] q[j]) is Enterprise;
                assert(j < i ==> p[j] is Enterprise);
            }
            if has_enterprise(p) {
                let j = choose|j: int| 0 <= j < p.len() && (#[trigger] p[j]) is Enterprise;
                assert(q[j] is Enterprise);
            }
            if has_platinum(q) && !any_plat {
                let j = choose|j: int| 0 <= j < q.len() && (#[trigger] q[j]) is Platinum;
                assert(j < i ==> p[j] is Platinum);
            }
            if has_platinum(p) {
                let j = choose|j: int| 0 <= j < p.len() && (#[trigger] p[j]) is Platinum;
                assert(q[j] is Platinum);
            }
        }
        i = i + 1;
    }
    proof {
        assert(clusters@.take(n as int) =~= clusters@);
        lemma_capped_hundredths(enterprise_hundredths_sum(clusters@));
        lemma_capped_hundredths(platinum_consumed_sum(clusters@));
    }
    if str_eq(license_type, "enterprise") {
        if any_ent {
            let q = ent / 100;
            let units = if ent % 100 == 0 { q } else { q + 1 };
            proof {
                let e = ent as nat;
                assert(e == q * 100 + e % 100) by (nonlinear_arith) requires q == e / 100;
                assert(ceil_div(e, 100) == units) by (nonlinear_arith)
                    requires e == q * 100 + e % 100, 0 <= e % 100 < 100,
                        units as int == (if e % 100 == 0 { q as int } else { q + 1 }),
                        ceil_div(e, 100) == ((e + 99) as nat) / 100;
            }
            if units <= u64::MAX as u128 {
                Some(units as u64)
            } else {
                Some(u64::MAX)
            }
        } else {
            None
        }
    } else if str_eq(license_type, "platinum") {
        if any_plat {
            if plat <= u64::MAX as u128 {
                Some(plat as u64)
            } else {
                Some(u64::MAX)
            }
        } else {
            None
        }
    } else {
        None
    }
}

// ── Merging ─────────────────────────────────────────────────────────────────

/// The pair (license uid, cluster uid) is in the keep set.
pub open spec fn keeps(keep: Seq<(String, String)>, license_uid: Seq<char>, cluster_uid: Seq<char>) -> bool {
    exists|i: int| 0 <= i < keep.len() && (#[trigger] keep[i]).0@ == license_uid && keep[i].1@ == cluster_uid
}

/// Whether the keep set holds the pair (license uid, cluster uid).
pub fn keep_contains(keep: &Vec<(String, String)>, license_uid: &String, cluster_uid: &String) -> (r: bool)
    ensures
        r == keeps(keep@, license_uid@, cluster_uid@),
{
    let n = keep.len();
    let mut i: usize = 0;
    while i < n
        invariant
            n == keep@.len(),
            i <= n,
            forall|j: int| 0 <= j < i ==> !((#[trigger] keep@[j]).0@ == license_uid@ && keep@[j].1@ == cluster_uid@),
        decreases n - i,
    {
        let (a, b) = &keep[i];
        if *a == *license_uid && *b == *cluster_uid {
            assert(keep@[i as int].0@ == license_uid@ && keep@[i as int].1@ == cluster_uid@);
            return true;
        }
        i = i + 1;
    }
    false
}

/// The merged entry for the fresh cluster `fcs[j]` of license `el`: the
/// existing entry of that cluster uid (the last one), where no earlier fresh
/// cluster had the same uid and either the pair is kept or the existing entry
/// is not older than the fresh one; else the fresh entry.
pub open spec fn merged_cluster_at(el: LicenseView, fcs: Seq<ClusterEntry>, j: int, keep: Seq<(String, String)>) -> ClusterEntry {
    let fc = fcs[j];
    let fu = entry_uid(fc);
    match last_cluster_index(el.clusters, fu) {
        Some(k) => if !has_cluster_uid(fcs.take(j), fu) && (keeps(keep, el.uid, fu)
            || !is_stale(entry_time(el.clusters[k]), entry_time(fc))) {
            el.clusters[k]
        } else {
            fc
        },
        None => fc,
    }
}

/// The existing entries that stay: for each cluster uid absent from the fresh
/// clusters, its last existing entry, in existing order.
pub open spec fn retained(cs: Seq<ClusterEntry>, fcs: Seq<ClusterEntry>) -> Seq<ClusterEntry>
    decreases cs.len(),
{
    if cs.len() == 0 {
        seq![]
    } else {
        let head = cs[0];
        let rest = cs.drop_first();
        if !has_cluster_uid(rest, entry_uid(head)) && !has_cluster_uid(fcs, entry_uid(head)) {
            seq![head] + retained(rest, fcs)
        } else {
            retained(rest, fcs)
        }
    }
}

/// The clusters of a merged license: one entry per fresh cluster, in fresh
/// order, then the retained existing entries.
pub open spec fn merged_clusters(el: LicenseView, fcs: Seq<ClusterEntry>, keep: Seq<(String, String)>) -> Seq<ClusterEntry> {
    Seq::new(fcs.len(), |j: int| merged_cluster_at(el, fcs, j, keep)) + retained(el.clusters, fcs)
}

/// An existing license merged with a fresh license of the same uid; its
/// `total_consumed` is recomputed from the merged clusters.
pub open spec fn merged_license(el: LicenseView, fl: LicenseView, keep: Seq<(String, String)>) -> LicenseView {
    let cs = merged_clusters(el, fl.clusters, keep);
    LicenseView { clusters: cs, total_consumed: recomputed_total(el.license_type, cs), ..el }
}

/// One fresh license merged into the licenses `ls`: into the first license of
/// its uid, or appended whole where none has it.
pub open spec fn merge_one(ls: Seq<LicenseView>, fl: LicenseView, keep: Seq<(String, String)>) -> Seq<LicenseView> {
    match first_license_index(ls, fl.uid) {
        Some(i) => ls.update(i, merged_license(ls[i], fl, keep)),
        None => ls.push(fl),
    }
}

/// The fresh licenses merged into `ls` one after the other, in order.
pub open spec fn merge_all(ls: Seq<LicenseView>, fs: Seq<LicenseView>, keep: Seq<(String, String)>) -> Seq<LicenseView>
    decreases fs.len(),
{
    if fs.len() == 0 {
        ls
    } else {
        merge_one(merge_all(ls, fs.drop_last(), keep), fs.last(), keep)
    }
}

/// The merged clusters of the existing license `el` and the fresh license `fl`.
pub fn merge_clusters(el: &LicenseEntry, fl: &LicenseEntry, keep: &Vec<(String, String)>) -> (r: Vec<ClusterEntry>)
    ensures
        r@ == merged_clusters(el@, fl.clusters@, keep@),
{
    let ghost fcs = fl.clusters@;
    let ghost front = Seq::new(fcs.len(), |j: int| merged_cluster_at(el@, fcs, j, keep@));
    let mut out: Vec<ClusterEntry> = Vec::new();
    let m = fl.clusters.len();
    let mut j: usize = 0;
    while j < m
        invariant
            m == fcs.len(),
            fcs == fl.clusters@,
            front == Seq::new(fcs.len(), |j: int| merged_cluster_at(el@, fcs, j, keep@)),
            j <= m,
            out@ == front.take(j as int),
        decreases m - j,
    {
        let fc = &fl.clusters[j];
        let fu = cluster_uid_of(fc);
        let chosen = match find_last_cluster(&el.clusters, fu) {
            Some(k) => {
                let earlier = has_uid_in(&fl.clusters, 0, j, fu);
                proof {
                    assert(fcs.subrange(0, j as int) =~= fcs.take(j as int));
                }
                if !earlier && (keep_contains(keep, &el.uid, fu) || !stale(
                    report_time_of(&el.clusters[k]),
                    report_time_of(fc),
                )) {
                    copy_entry(&el.clusters[k])
                } else {
                    copy_entry(fc)
                }
            },
            None => copy_entry(fc),
        };
        out.push(chosen);
        proof {
            assert(front[j as int] == chosen);
            assert(front.take(j + 1) =~= front.take(j as int).push(chosen));
        }
        j = j + 1;
    }
    let ghost base = out@;
    proof {
        assert(front.take(m as int) =~= front);
        assert(el.clusters@.skip(0) =~= el.clusters@);
        assert(base + retained(el.clusters@.skip(0), fcs) == base + retained(el.clusters@, fcs));
    }
    let n = el.clusters.len();
    let mut i: usize = 0;
    while i < n
        invariant
            n == el.clusters@.len(),
            m == fcs.len(),
            fcs == fl.clusters@,
            i <= n,
            base + retained(el.clusters@, fcs) == out@ + retained(el.clusters@.skip(i as int), fcs),
        decreases n - i,
    {
        let c = &el.clusters[i];
        let u = cluster_uid_of(c);
        let later = has_uid_in(&el.clusters, i + 1, n, u);
        let fresh_has = has_uid_in(&fl.clusters, 0, m, u);
        let ghost before = out@;
        proof {
            let s = el.clusters@.skip(i as int);
            assert(s[0] == *c);
            assert(s.drop_first() =~= el.clusters@.skip(i + 1));
            assert(el.clusters@.subrange(i + 1, n as int) =~= s.drop_first());
            assert(fcs.subrange(0, m as int) =~= fcs);
        }
        if !later && !fresh_has {
            out.push(copy_entry(c));
            proof {
                assert(before + (seq![*c] + retained(el.clusters@.skip(i + 1), fcs)) =~= out@ + retained(
                    el.clusters@.skip(i + 1),
                    fcs,
                ));
            }
        }
        i = i + 1;
    }
    proof {
        assert(el.clusters@.skip(n as int) =~= Seq::<ClusterEntry>::empty());
        assert(out@ + retained(el.clusters@.skip(n as int), fcs) =~= out@);
    }
    out
}

/// Merge `fresh` into `existing`: each fresh license goes into the first
/// existing license of its uid, where each fresh cluster replaces the existing
/// entry of its cluster uid unless the pair (license uid, cluster uid) is in
/// `keep_set` or the existing entry is not older than the fresh one, existing
/// clusters absent from the fresh license are retained,
/// and `total_consumed` is recomputed; a fresh license whose uid no existing
/// license has is appended whole. The errors are those of the fresh report.
pub fn merge_reports(existing: Report, fresh: Report, keep_set: &Vec<(String, String)>) -> (r: Report)
    ensures
        r.licenses.deep_view() == merge_all(existing.licenses.deep_view(), fresh.licenses.deep_view(), keep_set@),
        r.errors@ == fresh.errors@,
{
    let ghost ex = existing.licenses.deep_view();
    let ghost fr = fresh.licenses.deep_view();
    let Report { licenses, errors: _ } = existing;
    let Report { licenses: fresh_licenses, errors } = fresh;
    let mut ls = licenses;
    let n = fresh_licenses.len();
    let mut fi: usize = 0;
    proof {
        assert(fr.take(0) =~= Seq::<LicenseView>::empty());
    }
    while fi < n
        invariant
            n == fr.len(),
            fr == fresh_licenses.deep_view(),
            fi <= n,
            ls.deep_view() == merge_all(ex, fr.take(fi as int), keep_set@),
        decreases n - fi,
    {
        let fl = &fresh_licenses[fi];
        let ghost cur = ls.deep_view();
        proof {
            assert(fr.take(fi + 1).drop_last() =~= fr.take(fi as int));
            assert(fr.take(fi + 1).last() == fl@);
        }
        match find_first_license(&ls, &fl.uid) {
            Some(i) => {
                let merged = merge_clusters(&ls[i], fl, keep_set);
                let total = recompute_total_consumed(ls[i].license_type.as_str(), &merged);
                let old = &ls[i];
                let updated = LicenseEntry {
                    name: old.name.clone(),
                    uid: old.uid.clone(),
                    license_type: old.license_type.clone(),
                    max_resource_units: old.max_resource_units,
                    max_nodes: old.max_nodes,
                    total_consumed: total,
                    clusters: merged,
                };
                proof {
                    assert(cur[i as int] == old@);
                    assert(updated@ == merged_license(cur[i as int], fl@, keep_set@));
                }
                ls.set(i, updated);
                proof {
                    assert(ls.deep_view() =~= cur.update(i as int, updated@));
                }
            },
            None => {
                let copy = copy_license(fl);
                ls.push(copy);
                proof {
                    assert(ls.deep_view() =~= cur.push(fl@));
                }
            },
        }
        fi = fi + 1;
    }
    proof {
        assert(fr.take(n as int) =~= fr);
    }
    Report { licenses: ls, errors }
}

// ── Laws of the merge ───────────────────────────────────────────────────────

proof fn lemma_first_index(ls: Seq<LicenseView>, uid: Seq<char>)
    ensures
        match first_license_index(ls, uid) {
            Some(i) => is_first_license(ls, uid, i),
            None => forall|i: int| 0 <= i < ls.len() ==> (#[trigger] ls[i]).uid != uid,
        },
{
    if first_license_index(ls, uid) is None {
        assert forall|i: int| 0 <= i < ls.len() implies (#[trigger] ls[i]).uid != uid by {
            if ls[i].uid == uid {
                lemma_first_exists(ls, uid, i);
            }
        }
    }
}

proof fn lemma_first_exists(ls: Seq<LicenseView>, uid: Seq<char>, i: int)
    requires
        0 <= i < ls.len(),
        ls[i].uid == uid,
    ensures
        exists|k: int| is_first_license(ls, uid, k),
    decreases i,
{
    if exists|j: int| 0 <= j < i && (#[trigger] ls[j]).uid == uid {
        let j = choose|j: int| 0 <= j < i && (#[trigger] ls[j]).uid == uid;
        lemma_first_exists(ls, uid, j);
    } else {
        assert(is_first_license(ls, uid, i));
    }
}

proof fn lemma_first_index_is(ls: Seq<LicenseView>, uid: Seq<char>, i: int)
    requires
        is_first_license(ls, uid, i),
    ensures
        first_license_index(ls, uid) == Some(i),
{
    let k = choose|k: int| is_first_license(ls, uid, k);
    assert(is_first_license(ls, uid, k));
    if k < i {
        assert(ls[k].uid != uid);
    } else if k > i {
        assert(ls[i].uid != uid);
    }
}

proof fn lemma_last_index_is(cs: Seq<ClusterEntry>, uid: Seq<char>, k: int)
    requires
        is_last_cluster(cs, uid, k),
    ensures
        last_cluster_index(cs, uid) == Some(k),
{
    let m = choose|m: int| is_last_cluster(cs, uid, m);
    assert(is_last_cluster(cs, uid, m));
    if m < k {
        assert(entry_uid(cs[k]) != uid);
    } else if m > k {
        assert(entry_uid(cs[m]) != uid);
    }
}

/// No cluster uid occurs twice.
pub open spec fn distinct_cluster_uids(cs: Seq<ClusterEntry>) -> bool {
    forall|i: int, j: int| 0 <= i < cs.len() && 0 <= j < cs.len() && i != j
        ==> entry_uid(#[trigger] cs[i]) != entry_uid(#[trigger] cs[j])
}

/// Every entry has a report time.
pub open spec fn all_timed(cs: Seq<ClusterEntry>) -> bool {
    forall|i: int| 0 <= i < cs.len() ==> entry_time(#[trigger] cs[i]) is Some
}

/// No license uid occurs twice.
pub open spec fn distinct_license_uids(ls: Seq<LicenseView>) -> bool {
    forall|i: int, j: int| 0 <= i < ls.len() && 0 <= j < ls.len() && i != j ==> (#[trigger] ls[i]).uid != (#[trigger] ls[j]).uid
}

/// `cs` starts with one entry per cluster of `fcs`, of the same uid and not
/// older, and its other clusters have uids that `fcs` does not have.
spec fn fresh_first(cs: Seq<ClusterEntry>, fcs: Seq<ClusterEntry>) -> bool {
    &&& cs.len() >= fcs.len()
    &&& forall|j: int| 0 <= j < fcs.len() ==> entry_uid(#[trigger] cs[j]) == entry_uid(fcs[j])
        && !is_stale(entry_time(cs[j]), entry_time(fcs[j]))
    &&& forall|k: int| fcs.len() <= k < cs.len() ==> !has_cluster_uid(fcs, entry_uid(#[trigger] cs[k]))
}

proof fn lemma_no_candidates_of_own_clusters(l: LicenseView, fcs: Seq<ClusterEntry>, m: int)
    requires
        fresh_first(l.clusters, fcs),
        distinct_cluster_uids(fcs),
        all_timed(fcs),
        0 <= m <= fcs.len(),
    ensures
        license_candidates(l, fcs.take(m)) == Seq::<CandidateView>::empty(),
    decreases m,
{
    if m > 0 {
        let t = fcs.take(m);
        assert(t.drop_last() =~= fcs.take(m - 1));
        lemma_no_candidates_of_own_clusters(l, fcs, m - 1);
        let fc = fcs[m - 1];
        let u = entry_uid(fc);
        assert(t.last() == fc);
        assert forall|j: int| m - 1 < j < l.clusters.len() implies entry_uid(#[trigger] l.clusters[j]) != u by {
            if j < fcs.len() {
                assert(entry_uid(l.clusters[j]) == entry_uid(fcs[j]));
            } else {
                assert(!has_cluster_uid(fcs, entry_uid(l.clusters[j])));
                if entry_uid(l.clusters[j]) == u {
                    assert(entry_uid(fcs[m - 1]) == u);
                }
            }
        }
        assert(entry_uid(l.clusters[m - 1]) == u);
        assert(is_last_cluster(l.clusters, u, m - 1));
        lemma_last_index_is(l.clusters, u, m - 1);
        assert(!is_stale(entry_time(l.clusters[m - 1]), entry_time(fc)));
    }
}

proof fn lemma_retained_absent(cs: Seq<ClusterEntry>, fcs: Seq<ClusterEntry>)
    ensures
        forall|k: int| 0 <= k < retained(cs, fcs).len() ==> !has_cluster_uid(fcs, entry_uid(#[trigger] retained(cs, fcs)[k])),
    decreases cs.len(),
{
    if cs.len() > 0 {
        lemma_retained_absent(cs.drop_first(), fcs);
        let r = retained(cs, fcs);
        let rr = retained(cs.drop_first(), fcs);
        assert forall|k: int| 0 <= k < r.len() implies !has_cluster_uid(fcs, entry_uid(#[trigger] r[k])) by {
            if !has_cluster_uid(cs.drop_first(), entry_uid(cs[0])) && !has_cluster_uid(fcs, entry_uid(cs[0])) {
                if k > 0 {
                    assert(r[k] == rr[k - 1]);
                }
            } else {
                assert(r[k] == rr[k]);
            }
        }
    }
}

proof fn lemma_merged_fresh_first(el: LicenseView, fl: LicenseView)
    requires
        all_timed(fl.clusters),
    ensures
        fresh_first(merged_license(el, fl, Seq::<(String, String)>::empty()).clusters, fl.clusters),
{
    let keep = Seq::<(String, String)>::empty();
    let fcs = fl.clusters;
    let cs = merged_clusters(el, fcs, keep);
    let front = Seq::new(fcs.len(), |j: int| merged_cluster_at(el, fcs, j, keep));
    assert forall|j: int| 0 <= j < fcs.len() implies entry_uid(#[trigger] cs[j]) == entry_uid(fcs[j])
        && !is_stale(entry_time(cs[j]), entry_time(fcs[j])) by {
        assert(!keeps(keep, el.uid, entry_uid(fcs[j])));
        assert(cs[j] == front[j]);
        assert(entry_time(fcs[j]) is Some);
        match last_cluster_index(el.clusters, entry_uid(fcs[j])) {
            Some(k) => {
                assert(is_last_cluster(el.clusters, entry_uid(fcs[j]), k));
            },
            None => {},
        }
    }
    lemma_retained_absent(el.clusters, fcs);
    assert forall|k: int| fcs.len() <= k < cs.len() implies !has_cluster_uid(fcs, entry_uid(#[trigger] cs[k])) by {
        assert(cs[k] == retained(el.clusters, fcs)[k - fcs.len()]);
    }
}

/// After merging the first `t` fresh licenses with nothing kept, each of
/// them is the first license of its uid and starts with its own clusters.
proof fn lemma_merged_slots(ex: Seq<LicenseView>, fr: Seq<LicenseView>, t: int)
    requires
        distinct_license_uids(fr),
        forall|s: int| 0 <= s < fr.len() ==> all_timed(#[trigger] fr[s].clusters),
        0 <= t <= fr.len(),
    ensures
        forall|s: int| 0 <= s < t ==> (match #[trigger] first_license_index(merge_all(ex, fr.take(t), Seq::<(String, String)>::empty()), fr[s].uid) {
            Some(i) => fresh_first(merge_all(ex, fr.take(t), Seq::<(String, String)>::empty())[i].clusters, fr[s].clusters),
            None => false,
        }),
    decreases t,
{
    let keep = Seq::<(String, String)>::empty();
    if t > 0 {
        lemma_merged_slots(ex, fr, t - 1);
        let prev = merge_all(ex, fr.take(t - 1), keep);
        let cur = merge_all(ex, fr.take(t), keep);
        assert(fr.take(t).drop_last() =~= fr.take(t - 1));
        assert(fr.take(t).last() == fr[t - 1]);
        let fl = fr[t - 1];
        let u = fl.uid;
        lemma_first_index(prev, u);
        match first_license_index(prev, u) {
            Some(i) => {
                assert(cur == prev.update(i, merged_license(prev[i], fl, keep)));
                assert(all_timed(fr[t - 1].clusters));
                lemma_merged_fresh_first(prev[i], fl);
                assert(is_first_license(cur, u, i));
                lemma_first_index_is(cur, u, i);
                assert forall|s: int| 0 <= s < t implies (match #[trigger] first_license_index(cur, fr[s].uid) {
                    Some(i2) => fresh_first(cur[i2].clusters, fr[s].clusters),
                    None => false,
                }) by {
                    if s < t - 1 {
                        assert(fr[s].uid != u);
                        let us = fr[s].uid;
                        lemma_first_index(prev, us);
                        let i2 = first_license_index(prev, us)->0;
                        assert(i2 != i);
                        assert(is_first_license(cur, us, i2));
                        lemma_first_index_is(cur, us, i2);
                    }
                }
            },
            None => {
                assert(cur == prev.push(fl));
                assert(all_timed(fr[t - 1].clusters));
                assert forall|j: int| 0 <= j < fl.clusters.len() implies entry_uid(#[trigger] fl.clusters[j]) == entry_uid(fl.clusters[j])
                    && !is_stale(entry_time(fl.clusters[j]), entry_time(fl.clusters[j])) by {
                    assert(entry_time(fl.clusters[j]) is Some);
                }
                assert(is_first_license(cur, u, prev.len() as int));
                lemma_first_index_is(cur, u, prev.len() as int);
                assert(fresh_first(fl.clusters, fl.clusters));
                assert forall|s: int| 0 <= s < t implies (match #[trigger] first_license_index(cur, fr[s].uid) {
                    Some(i2) => fresh_first(cur[i2].clusters, fr[s].clusters),
                    None => false,
                }) by {
                    if s < t - 1 {
                        let us = fr[s].uid;
                        lemma_first_index(prev, us);
                        let i2 = first_license_index(prev, us)->0;
                        assert(is_first_license(cur, us, i2));
                        lemma_first_index_is(cur, us, i2);
                    }
                }
            },
        }
    }
}

/// Updating everything leaves nothing to update: once the fresh report is
/// merged with an empty keep set, no cluster of the result is older than its
/// counterpart in the fresh report. This holds when the fresh licenses have
/// distinct uids and each carries clusters of distinct uids, all with a report
/// time (a fresh cluster without one would count as stale against itself).
pub proof fn law_update_all_leaves_nothing_stale(ex: Seq<LicenseView>, fr: Seq<LicenseView>)
    requires
        distinct_license_uids(fr),
        forall|t: int| 0 <= t < fr.len() ==> distinct_cluster_uids(#[trigger] fr[t].clusters),
        forall|t: int| 0 <= t < fr.len() ==> all_timed(#[trigger] fr[t].clusters),
    ensures
        update_candidates(merge_all(ex, fr, Seq::<(String, String)>::empty()), fr) == Seq::<CandidateView>::empty(),
{
    let merged = merge_all(ex, fr, Seq::<(String, String)>::empty());
    lemma_merged_slots(ex, fr, fr.len() as int);
    assert(fr.take(fr.len() as int) =~= fr);
    lemma_no_candidates_prefix(merged, fr, fr.len() as int);
    assert(fr.take(fr.len() as int) =~= fr);
}

proof fn lemma_no_candidates_prefix(merged: Seq<LicenseView>, fr: Seq<LicenseView>, t: int)
    requires
        0 <= t <= fr.len(),
        forall|s: int| 0 <= s < fr.len() ==> distinct_cluster_uids(#[trigger] fr[s].clusters),
        forall|s: int| 0 <= s < fr.len() ==> all_timed(#[trigger] fr[s].clusters),
        forall|s: int| 0 <= s < fr.len() ==> (match #[trigger] first_license_index(merged, fr[s].uid) {
            Some(i) => fresh_first(merged[i].clusters, fr[s].clusters),
            None => false,
        }),
    ensures
        update_candidates(merged, fr.take(t)) == Seq::<CandidateView>::empty(),
    decreases t,
{
    if t > 0 {
        lemma_no_candidates_prefix(merged, fr, t - 1);
        assert(fr.take(t).drop_last() =~= fr.take(t - 1));
        let fl = fr[t - 1];
        assert(fr.take(t).last() == fl);
        let o = first_license_index(merged, fl.uid);
        assert(distinct_cluster_uids(fr[t - 1].clusters));
        assert(all_timed(fr[t - 1].clusters));
        let i = o->0;
        lemma_first_index(merged, fl.uid);
        lemma_no_candidates_of_own_clusters(merged[i], fl.clusters, fl.clusters.len() as int);
        assert(fl.clusters.take(fl.clusters.len() as int) =~= fl.clusters);
        assert(Seq::<CandidateView>::empty() + Seq::<CandidateView>::empty() =~= Seq::<CandidateView>::empty());
    }
}

proof fn lemma_retained_holds(cs: Seq<ClusterEntry>, fcs: Seq<ClusterEntry>, k: int)
    requires
        is_last_cluster(cs, entry_uid(cs[k]), k),
        !has_cluster_uid(fcs, entry_uid(cs[k])),
    ensures
        retained(cs, fcs).contains(cs[k]),
    decreases cs.len(),
{
    let rest = cs.drop_first();
    if k == 0 {
        assert forall|i: int| 0 <= i < rest.len() implies entry_uid(#[trigger] rest[i]) != entry_uid(cs[0]) by {
            assert(rest[i] == cs[i + 1]);
        }
        assert(retained(cs, fcs)[0] == cs[0]);
    } else {
        assert(rest[k - 1] == cs[k]);
        assert forall|j: int| k - 1 < j < rest.len() implies entry_uid(#[trigger] rest[j]) != entry_uid(rest[k - 1]) by {
            assert(rest[j] == cs[j + 1]);
        }
        lemma_retained_holds(rest, fcs, k - 1);
        let r = retained(rest, fcs);
        let i = choose|i: int| 0 <= i < r.len() && r[i] == cs[k];
        if !has_cluster_uid(rest, entry_uid(cs[0])) && !has_cluster_uid(fcs, entry_uid(cs[0])) {
            assert(retained(cs, fcs)[i + 1] == cs[k]);
        } else {
            assert(retained(cs, fcs)[i] == cs[k]);
        }
    }
}

/// An existing cluster whose uid the fresh license does not have stays in the
/// merged license (its last entry of that uid).
pub proof fn law_absent_cluster_retained(el: LicenseView, fl: LicenseView, keep: Seq<(String, String)>, k: int)
    requires
        is_last_cluster(el.clusters, entry_uid(el.clusters[k]), k),
        !has_cluster_uid(fl.clusters, entry_uid(el.clusters[k])),
    ensures
        merged_license(el, fl, keep).clusters.contains(el.clusters[k]),
{
    lemma_retained_holds(el.clusters, fl.clusters, k);
    let r = retained(el.clusters, fl.clusters);
    let i = choose|i: int| 0 <= i < r.len() && r[i] == el.clusters[k];
    let cs = merged_license(el, fl, keep).clusters;
    assert(cs[fl.clusters.len() + i] == el.clusters[k]);
}

/// With nothing kept, a fresh cluster replaces its existing counterpart where
/// that one is older (or has no report time) or absent, and the existing
/// entry stays where it is equal or newer; the merged license starts with one
/// entry per fresh cluster, of its uid, and its other clusters have uids that
/// the fresh license does not have.
pub proof fn law_update_all_replaces_only_stale(el: LicenseView, fl: LicenseView)
    ensures
        ({
            let fcs = fl.clusters;
            let cs = merged_license(el, fl, Seq::<(String, String)>::empty()).clusters;
            &&& cs.len() >= fcs.len()
            &&& forall|j: int| 0 <= j < fcs.len() ==> entry_uid(#[trigger] cs[j]) == entry_uid(fcs[j])
            &&& forall|j: int| 0 <= j < fcs.len() && (match last_cluster_index(el.clusters, entry_uid(fcs[j])) {
                Some(k) => is_stale(entry_time(el.clusters[k]), entry_time(fcs[j])),
                None => true,
            }) ==> #[trigger] cs[j] == fcs[j]
            &&& forall|j: int| 0 <= j < fcs.len() && !has_cluster_uid(fcs.take(j), entry_uid(fcs[j]))
                && (last_cluster_index(el.clusters, entry_uid(fcs[j])) matches Some(k)
                && !is_stale(entry_time(el.clusters[k]), entry_time(fcs[j])))
                ==> #[trigger] cs[j] == el.clusters[last_cluster_index(el.clusters, entry_uid(fcs[j]))->0]
            &&& forall|k: int| fcs.len() <= k < cs.len() ==> !has_cluster_uid(fcs, entry_uid(#[trigger] cs[k]))
        }),
{
    let keep = Seq::<(String, String)>::empty();
    let fcs = fl.clusters;
    let cs = merged_clusters(el, fcs, keep);
    let front = Seq::new(fcs.len(), |j: int| merged_cluster_at(el, fcs, j, keep));
    assert forall|j: int| 0 <= j < fcs.len() implies entry_uid(#[trigger] cs[j]) == entry_uid(fcs[j]) by {
        assert(cs[j] == front[j]);
        match last_cluster_index(el.clusters, entry_uid(fcs[j])) {
            Some(k) => {
                assert(is_last_cluster(el.clusters, entry_uid(fcs[j]), k));
            },
            None => {},
        }
    }
    assert forall|j: int| 0 <= j < fcs.len() implies #[trigger] cs[j] == front[j] by {}
    lemma_retained_absent(el.clusters, fcs);
    assert forall|k: int| fcs.len() <= k < cs.len() implies !has_cluster_uid(fcs, entry_uid(#[trigger] cs[k])) by {
        assert(cs[k] == retained(el.clusters, fcs)[k - fcs.len()]);
    }
}

/// A merge keeps every existing license in its place with its uid, and every
/// fresh license's uid is present afterwards.
pub proof fn law_merge_keeps_licenses(ls: Seq<LicenseView>, fs: Seq<LicenseView>, keep: Seq<(String, String)>)
    ensures
        merge_all(ls, fs, keep).len() >= ls.len(),
        forall|i: int| 0 <= i < ls.len() ==> (#[trigger] merge_all(ls, fs, keep)[i]).uid == ls[i].uid,
        forall|t: int| 0 <= t < fs.len() ==> exists|i: int| 0 <= i < merge_all(ls, fs, keep).len()
            && #[trigger] merge_all(ls, fs, keep)[i].uid == (#[trigger] fs[t]).uid,
    decreases fs.len(),
{
    if fs.len() > 0 {
        let p = fs.drop_last();
        law_merge_keeps_licenses(ls, p, keep);
        let prev = merge_all(ls, p, keep);
        let cur = merge_all(ls, fs, keep);
        let fl = fs.last();
        lemma_first_index(prev, fl.uid);
        assert forall|i: int| 0 <= i < prev.len() implies (#[trigger] cur[i]).uid == prev[i].uid by {}
        assert forall|t: int| 0 <= t < fs.len() implies exists|i: int| 0 <= i < cur.len()
            && #[trigger] cur[i].uid == (#[trigger] fs[t]).uid by {
            if t < fs.len() - 1 {
                assert(fs[t] == p[t]);
                let i = choose|i: int| 0 <= i < prev.len() && #[trigger] prev[i].uid == (#[trigger] p[t]).uid;
                assert(cur[i].uid == prev[i].uid);
            } else {
                match first_license_index(prev, fl.uid) {
                    Some(i) => {
                        assert(cur[i].uid == fl.uid);
                    },
                    None => {
                        assert(cur[prev.len() as int].uid == fl.uid);
                    },
                }
            }
        }
    }
}

} // verus!
