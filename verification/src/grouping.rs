//! Grouping of resource collections into named buckets keyed by a label
//! value, a namespace, or a single catch-all bucket.

use vstd::prelude::*;
use crate::labels::LabelMap;
use crate::resources::{
    ConfigMapInfo, DaemonSetInfo, DeploymentInfo, PodInfo, SecretInfo, ServiceInfo,
    StatefulSetInfo,
};
use crate::text::str_eq;

verus! {

broadcast use vstd::seq_lib::group_filter_ensures, Seq::lemma_filter_push;

/// What drives bucket assignment.
#[derive(Debug, Clone)]
pub enum GroupBy {
    /// Group by the `app` label.
    App,
    /// Group by the `tier` label.
    Tier,
    /// Group by the Helm release instance label.
    HelmRelease,
    /// Group by the record's namespace.
    Namespace,
    /// Group by any label key.
    CustomLabel(String),
    /// A single catch-all bucket.
    NoGrouping,
}

/// A named bucket of resources sharing one derived key.
#[derive(Debug, Clone)]
pub struct ResourceGroup {
    pub name: String,
    pub group_type: String,
    pub services: Vec<ServiceInfo>,
    pub pods: Vec<PodInfo>,
    pub deployments: Vec<DeploymentInfo>,
    pub statefulsets: Vec<StatefulSetInfo>,
    pub daemonsets: Vec<DaemonSetInfo>,
    pub configmaps: Vec<ConfigMapInfo>,
    pub secrets: Vec<SecretInfo>,
    pub metadata: LabelMap,
}

impl ResourceGroup {
    /// How many records the bucket holds, over every kind.
    pub open spec fn total(&self) -> int {
        self.services@.len() as int + self.pods@.len() as int + self.deployments@.len() as int
            + self.statefulsets@.len() as int + self.daemonsets@.len() as int
            + self.configmaps@.len() as int + self.secrets@.len() as int
    }

    /// An empty bucket with the given name and kind tag.
    pub fn new(name: String, group_type: String) -> (r: Self)
        ensures
            r.name == name,
            r.group_type == group_type,
            r.services@.len() == 0,
            r.pods@.len() == 0,
            r.deployments@.len() == 0,
            r.statefulsets@.len() == 0,
            r.daemonsets@.len() == 0,
            r.configmaps@.len() == 0,
            r.secrets@.len() == 0,
            r.metadata@ == Map::<Seq<char>, Seq<char>>::empty(),
            r.metadata.wf(),
            r.total() == 0,
    {
        ResourceGroup {
            name,
            group_type,
            services: Vec::new(),
            pods: Vec::new(),
            deployments: Vec::new(),
            statefulsets: Vec::new(),
            daemonsets: Vec::new(),
            configmaps: Vec::new(),
            secrets: Vec::new(),
            metadata: LabelMap::new(),
        }
    }

    /// The number of records held, summed over every kind.
    pub fn total_resources(&self) -> (r: usize)
        requires
            self.total() <= usize::MAX,
        ensures
            r == self.total(),
    {
        self.services.len() + self.pods.len() + self.deployments.len() + self.statefulsets.len()
            + self.daemonsets.len() + self.configmaps.len() + self.secrets.len()
    }
}

/// The terminal output of a grouping pass: buckets under their keys, each
/// key held once, in the order the keys were first seen.
#[derive(Debug, Clone)]
pub struct GroupedResources {
    pub groups: Vec<(String, ResourceGroup)>,
}

/// The records of `gs` summed over all buckets.
pub open spec fn sum_groups(gs: Seq<(String, ResourceGroup)>) -> int
    decreases gs.len(),
{
    if gs.len() == 0 {
        0
    } else {
        sum_groups(gs.drop_last()) + gs.last().1.total()
    }
}

/// Whether a bucket under `key` exists.
pub open spec fn has_group(gs: Seq<(String, ResourceGroup)>, key: Seq<char>) -> bool {
    exists|i: int| 0 <= i < gs.len() && gs[i].0@ == key
}

pub open spec fn distinct_group_keys(gs: Seq<(String, ResourceGroup)>) -> bool {
    forall|i: int, j: int| 0 <= i < j < gs.len() ==> gs[i].0@ != gs[j].0@
}

impl GroupedResources {
    pub open spec fn wf(&self) -> bool {
        distinct_group_keys(self.groups@)
    }

    /// How many buckets there are.
    pub fn len(&self) -> (r: usize)
        ensures
            r == self.groups@.len(),
    {
        self.groups.len()
    }

    fn position_of(&self, key: &str) -> (r: Option<usize>)
        ensures
            match r {
                Some(i) => 0 <= i < self.groups@.len() && self.groups@[i as int].0@ == key@,
                None => !has_group(self.groups@, key@),
            },
    {
        bucket_index(&self.groups, key)
    }

    /// Whether a bucket stands under `key`.
    pub fn contains_key(&self, key: &str) -> (r: bool)
        ensures
            r == has_group(self.groups@, key@),
    {
        self.position_of(key).is_some()
    }

    /// The bucket under `key`, if one exists.
    pub fn get<'a>(&'a self, key: &str) -> (r: Option<&'a ResourceGroup>)
        ensures
            match r {
                Some(b) => exists|i: int|
                    0 <= i < self.groups@.len() && self.groups@[i as int].0@ == key@
                        && *b == self.groups@[i as int].1,
                None => !has_group(self.groups@, key@),
            },
    {
        match self.position_of(key) {
            Some(i) => Some(&self.groups[i].1),
            None => None,
        }
    }

    /// The key of the bucket at position `i`, for walking the buckets.
    pub fn key_at(&self, i: usize) -> (r: &String)
        requires
            i < self.groups@.len(),
        ensures
            r == self.groups@[i as int].0,
    {
        &self.groups[i].0
    }

    /// The bucket at position `i`, for walking the buckets.
    pub fn group_at(&self, i: usize) -> (r: &ResourceGroup)
        requires
            i < self.groups@.len(),
        ensures
            r == self.groups@[i as int].1,
    {
        &self.groups[i].1
    }
}

fn bucket_index(groups: &Vec<(String, ResourceGroup)>, key: &str) -> (r: Option<usize>)
    ensures
        match r {
            Some(i) => 0 <= i < groups@.len() && groups@[i as int].0@ == key@,
            None => !has_group(groups@, key@),
        },
{
    let n = groups.len();
    let mut i: usize = 0;
    while i < n
        invariant
            0 <= i <= n,
            n == groups@.len(),
            forall|j: int| 0 <= j < i ==> groups@[j].0@ != key@,
        decreases n - i,
    {
        if str_eq(groups[i].0.as_str(), key) {
            return Some(i);
        }
        i = i + 1;
    }
    None
}

/// The label key (also the bucket tag) each mode derives keys from.
pub open spec fn group_tag(g: GroupBy) -> Seq<char> {
    match g {
        GroupBy::App => "app"@,
        GroupBy::Tier => "tier"@,
        GroupBy::HelmRelease => "app.kubernetes.io/instance"@,
        GroupBy::CustomLabel(k) => k@,
        GroupBy::Namespace => "namespace"@,
        GroupBy::NoGrouping => "none"@,
    }
}

fn group_tag_string(g: &GroupBy) -> (r: String)
    ensures
        r@ == group_tag(*g),
{
    match g {
        GroupBy::App => "app".to_owned(),
        GroupBy::Tier => "tier".to_owned(),
        GroupBy::HelmRelease => "app.kubernetes.io/instance".to_owned(),
        GroupBy::CustomLabel(k) => k.clone(),
        GroupBy::Namespace => "namespace".to_owned(),
        GroupBy::NoGrouping => "none".to_owned(),
    }
}

/// The value under `key`, or the literal `unknown` when absent.
pub open spec fn label_or_unknown(labels: Map<Seq<char>, Seq<char>>, key: Seq<char>) -> Seq<char> {
    if labels.contains_key(key) {
        labels[key]
    } else {
        "unknown"@
    }
}

fn label_key_of(labels: &LabelMap, key: &str) -> (r: String)
    requires
        labels.wf(),
    ensures
        r@ == label_or_unknown(labels@, key@),
{
    match labels.get(key) {
        Some(v) => v.clone(),
        None => "unknown".to_owned(),
    }
}

pub open spec fn service_key(s: ServiceInfo, g: GroupBy) -> Seq<char> {
    match g {
        GroupBy::Namespace => s.namespace@,
        GroupBy::NoGrouping => "all"@,
        _ => match s.selector {
            Some(m) => label_or_unknown(m@, group_tag(g)),
            None => "unknown"@,
        },
    }
}

pub open spec fn pod_key(p: PodInfo, g: GroupBy) -> Seq<char> {
    match g {
        GroupBy::Namespace => p.namespace@,
        GroupBy::NoGrouping => "all"@,
        _ => label_or_unknown(p.labels@, group_tag(g)),
    }
}

pub open spec fn deployment_key(d: DeploymentInfo, g: GroupBy) -> Seq<char> {
    match g {
        GroupBy::Namespace => d.namespace@,
        GroupBy::NoGrouping => "all"@,
        _ => label_or_unknown(d.labels@, group_tag(g)),
    }
}

pub open spec fn statefulset_key(s: StatefulSetInfo, g: GroupBy) -> Seq<char> {
    match g {
        GroupBy::Namespace => s.namespace@,
        GroupBy::NoGrouping => "all"@,
        _ => label_or_unknown(s.labels@, group_tag(g)),
    }
}

pub open spec fn daemonset_key(d: DaemonSetInfo, g: GroupBy) -> Seq<char> {
    match g {
        GroupBy::Namespace => d.namespace@,
        GroupBy::NoGrouping => "all"@,
        _ => label_or_unknown(d.labels@, group_tag(g)),
    }
}

pub open spec fn configmap_key(m: ConfigMapInfo, g: GroupBy) -> Seq<char> {
    match g {
        GroupBy::Namespace => m.namespace@,
        GroupBy::NoGrouping => "all"@,
        _ => label_or_unknown(m.labels@, group_tag(g)),
    }
}

pub open spec fn secret_key(s: SecretInfo, g: GroupBy) -> Seq<char> {
    match g {
        GroupBy::Namespace => s.namespace@,
        GroupBy::NoGrouping => "all"@,
        _ => label_or_unknown(s.labels@, group_tag(g)),
    }
}

/// The metadata every bucket of a pass carries: the Helm mark under
/// `HelmRelease`, nothing otherwise.
pub open spec fn pass_metadata(g: GroupBy) -> Map<Seq<char>, Seq<char>> {
    if g is HelmRelease {
        Map::<Seq<char>, Seq<char>>::empty().insert("managed-by"@, "Helm"@)
    } else {
        Map::<Seq<char>, Seq<char>>::empty()
    }
}

/// Whether some record of the pass derives `key`.
pub open spec fn some_record_keyed(
    key: Seq<char>,
    svcs: Seq<ServiceInfo>,
    pds: Seq<PodInfo>,
    deps: Seq<DeploymentInfo>,
    stss: Seq<StatefulSetInfo>,
    dss: Seq<DaemonSetInfo>,
    cms: Seq<ConfigMapInfo>,
    secs: Seq<SecretInfo>,
    g: GroupBy,
) -> bool {
    ||| exists|i: int| 0 <= i < svcs.len() && service_key(svcs[i], g) == key
    ||| exists|i: int| 0 <= i < pds.len() && pod_key(pds[i], g) == key
    ||| exists|i: int| 0 <= i < deps.len() && deployment_key(deps[i], g) == key
    ||| exists|i: int| 0 <= i < stss.len() && statefulset_key(stss[i], g) == key
    ||| exists|i: int| 0 <= i < dss.len() && daemonset_key(dss[i], g) == key
    ||| exists|i: int| 0 <= i < cms.len() && configmap_key(cms[i], g) == key
    ||| exists|i: int| 0 <= i < secs.len() && secret_key(secs[i], g) == key
}

/// Every record's derived key has its bucket.
pub open spec fn all_records_bucketed(
    gs: Seq<(String, ResourceGroup)>,
    svcs: Seq<ServiceInfo>,
    pds: Seq<PodInfo>,
    deps: Seq<DeploymentInfo>,
    stss: Seq<StatefulSetInfo>,
    dss: Seq<DaemonSetInfo>,
    cms: Seq<ConfigMapInfo>,
    secs: Seq<SecretInfo>,
    g: GroupBy,
) -> bool {
    &&& forall|i: int| 0 <= i < svcs.len() ==> has_group(gs, #[trigger] service_key(svcs[i], g))
    &&& forall|i: int| 0 <= i < pds.len() ==> has_group(gs, #[trigger] pod_key(pds[i], g))
    &&& forall|i: int| 0 <= i < deps.len() ==> has_group(gs, #[trigger] deployment_key(deps[i], g))
    &&& forall|i: int|
        0 <= i < stss.len() ==> has_group(gs, #[trigger] statefulset_key(stss[i], g))
    &&& forall|i: int| 0 <= i < dss.len() ==> has_group(gs, #[trigger] daemonset_key(dss[i], g))
    &&& forall|i: int| 0 <= i < cms.len() ==> has_group(gs, #[trigger] configmap_key(cms[i], g))
    &&& forall|i: int| 0 <= i < secs.len() ==> has_group(gs, #[trigger] secret_key(secs[i], g))
}

/// Every bucket's key is derived by some record.
pub open spec fn no_spurious_buckets(
    gs: Seq<(String, ResourceGroup)>,
    svcs: Seq<ServiceInfo>,
    pds: Seq<PodInfo>,
    deps: Seq<DeploymentInfo>,
    stss: Seq<StatefulSetInfo>,
    dss: Seq<DaemonSetInfo>,
    cms: Seq<ConfigMapInfo>,
    secs: Seq<SecretInfo>,
    g: GroupBy,
) -> bool {
    forall|i: int|
        0 <= i < gs.len() ==> some_record_keyed(
            #[trigger] gs[i].0@,
            svcs,
            pds,
            deps,
            stss,
            dss,
            cms,
            secs,
            g,
        )
}

/// What one bucket of a grouping pass must hold: exactly the records
/// whose derived key is the bucket's key, in their original order.
pub open spec fn bucket_ok(
    key: Seq<char>,
    b: ResourceGroup,
    svcs: Seq<ServiceInfo>,
    pds: Seq<PodInfo>,
    deps: Seq<DeploymentInfo>,
    stss: Seq<StatefulSetInfo>,
    dss: Seq<DaemonSetInfo>,
    cms: Seq<ConfigMapInfo>,
    secs: Seq<SecretInfo>,
    g: GroupBy,
) -> bool {
    &&& b.services@ == svcs.filter(|s: ServiceInfo| service_key(s, g) == key)
    &&& b.pods@ == pds.filter(|p: PodInfo| pod_key(p, g) == key)
    &&& b.deployments@ == deps.filter(|d: DeploymentInfo| deployment_key(d, g) == key)
    &&& b.statefulsets@ == stss.filter(|s: StatefulSetInfo| statefulset_key(s, g) == key)
    &&& b.daemonsets@ == dss.filter(|d: DaemonSetInfo| daemonset_key(d, g) == key)
    &&& b.configmaps@ == cms.filter(|m: ConfigMapInfo| configmap_key(m, g) == key)
    &&& b.secrets@ == secs.filter(|s: SecretInfo| secret_key(s, g) == key)
    &&& b.group_type@ == group_tag(g)
    &&& b.metadata@ == pass_metadata(g)
    &&& b.metadata.wf()
}

/// What a whole grouping pass must produce: one bucket per derived key
/// (under the catch-all mode, the single `all` bucket), each bucket
/// holding exactly its records, every record counted once.
pub open spec fn buckets_ok(
    gs: Seq<(String, ResourceGroup)>,
    svcs: Seq<ServiceInfo>,
    pds: Seq<PodInfo>,
    deps: Seq<DeploymentInfo>,
    stss: Seq<StatefulSetInfo>,
    dss: Seq<DaemonSetInfo>,
    cms: Seq<ConfigMapInfo>,
    secs: Seq<SecretInfo>,
    g: GroupBy,
) -> bool {
    &&& distinct_group_keys(gs)
    &&& forall|i: int|
        0 <= i < gs.len() ==> bucket_ok(
            #[trigger] gs[i].0@,
            gs[i].1,
            svcs,
            pds,
            deps,
            stss,
            dss,
            cms,
            secs,
            g,
        )
    &&& (if g is NoGrouping {
        gs.len() == 1 && gs[0].0@ == "all"@
    } else {
        &&& all_records_bucketed(gs, svcs, pds, deps, stss, dss, cms, secs, g)
        &&& no_spurious_buckets(gs, svcs, pds, deps, stss, dss, cms, secs, g)
    })
    &&& sum_groups(gs) == svcs.len() + pds.len() + deps.len() + stss.len() + dss.len() + cms.len()
        + secs.len()
}

proof fn lemma_filter_all<A>(s: Seq<A>, pred: spec_fn(A) -> bool)
    requires
        forall|i: int| 0 <= i < s.len() ==> pred(#[trigger] s[i]),
    ensures
        s.filter(pred) == s,
    decreases s.len(),
{
    reveal_with_fuel(Seq::filter, 2);
    if s.len() > 0 {
        lemma_filter_all(s.drop_last(), pred);
        assert(s.filter(pred) =~= s);
    } else {
        assert(s.filter(pred) =~= s);
    }
}

proof fn lemma_filter_empty<A>(s: Seq<A>, pred: spec_fn(A) -> bool)
    requires
        forall|i: int| 0 <= i < s.len() ==> !pred(#[trigger] s[i]),
    ensures
        s.filter(pred) == Seq::<A>::empty(),
    decreases s.len(),
{
    reveal_with_fuel(Seq::filter, 2);
    if s.len() > 0 {
        lemma_filter_empty(s.drop_last(), pred);
        assert(s.filter(pred) =~= Seq::<A>::empty());
    } else {
        assert(s.filter(pred) =~= Seq::<A>::empty());
    }
}

proof fn lemma_sum_update(gs: Seq<(String, ResourceGroup)>, i: int, p: (String, ResourceGroup))
    requires
        0 <= i < gs.len(),
    ensures
        sum_groups(gs.update(i, p)) == sum_groups(gs) - gs[i].1.total() + p.1.total(),
    decreases gs.len(),
{
    let gs2 = gs.update(i, p);
    if i == gs.len() - 1 {
        assert(gs2.drop_last() =~= gs.drop_last());
        assert(gs2.last() == p);
    } else {
        assert(gs2.drop_last() =~= gs.drop_last().update(i, p));
        lemma_sum_update(gs.drop_last(), i, p);
        assert(gs2.last() == gs.last());
        assert(gs.drop_last()[i] == gs[i]);
    }
}

proof fn lemma_sum_push(gs: Seq<(String, ResourceGroup)>, p: (String, ResourceGroup))
    ensures
        sum_groups(gs.push(p)) == sum_groups(gs) + p.1.total(),
{
    assert(gs.push(p).drop_last() =~= gs);
    assert(gs.push(p).last() == p);
}


proof fn lemma_step_service_update(
    gs: Seq<(String, ResourceGroup)>,
    p: (String, ResourceGroup),
    bi: int,
    rec: ServiceInfo,
    svcs: Seq<ServiceInfo>,
    pds: Seq<PodInfo>,
    deps: Seq<DeploymentInfo>,
    stss: Seq<StatefulSetInfo>,
    dss: Seq<DaemonSetInfo>,
    cms: Seq<ConfigMapInfo>,
    secs: Seq<SecretInfo>,
    g: GroupBy,
)
    requires
        buckets_ok(gs, svcs, pds, deps, stss, dss, cms, secs, g),
        0 <= bi < gs.len(),
        gs[bi].0@ == service_key(rec, g),
        p.0 == gs[bi].0,
        p.1.services@ == gs[bi].1.services@.push(rec),
        p.1.pods == gs[bi].1.pods,
        p.1.deployments == gs[bi].1.deployments,
        p.1.statefulsets == gs[bi].1.statefulsets,
        p.1.daemonsets == gs[bi].1.daemonsets,
        p.1.configmaps == gs[bi].1.configmaps,
        p.1.secrets == gs[bi].1.secrets,
        p.1.name == gs[bi].1.name,
        p.1.group_type == gs[bi].1.group_type,
        p.1.metadata == gs[bi].1.metadata,
    ensures
        buckets_ok(gs.update(bi, p), svcs.push(rec), pds, deps, stss, dss, cms, secs, g),
{
    let gs2 = gs.update(bi, p);
    let key = gs[bi].0@;
    assert forall|i: int, j: int| 0 <= i < j < gs2.len() implies gs2[i].0@ != gs2[j].0@ by {
        assert(gs2[i].0 == gs[i].0 && gs2[j].0 == gs[j].0);
    }
    assert forall|i: int| 0 <= i < gs2.len() implies bucket_ok(
        #[trigger] gs2[i].0@,
        gs2[i].1,
        svcs.push(rec), pds, deps, stss, dss, cms, secs,
        g,
    ) by {
        let ki = gs2[i].0@;
        let pred = |s: ServiceInfo| service_key(s, g) == ki;
        assert(bucket_ok(gs[i].0@, gs[i].1, svcs, pds, deps, stss, dss, cms, secs, g));
        Seq::lemma_filter_push(svcs, rec, pred);
        if i == bi {
            assert(pred(rec));
            assert(gs2[i].1.services@ == svcs.filter(pred).push(rec));
        } else {
            assert(gs2[i].0 == gs[i].0 && gs2[i].1 == gs[i].1);
            assert(!pred(rec));
        }
    }
    if !(g is NoGrouping) {
        assert forall|i: int| 0 <= i < svcs.push(rec).len() implies has_group(
            gs2,
            #[trigger] service_key(svcs.push(rec)[i], g),
        ) by {
            if i < svcs.len() {
                assert(svcs.push(rec)[i] == svcs[i]);
                let w = choose|w: int| 0 <= w < gs.len() && gs[w].0@ == service_key(svcs[i], g);
                assert(gs2[w].0@ == service_key(svcs[i], g));
            } else {
                assert(svcs.push(rec)[i] == rec);
                assert(gs2[bi].0@ == service_key(rec, g));
            }
        }
        assert forall|i: int| 0 <= i < pds.len() implies has_group(
            gs2,
            #[trigger] pod_key(pds[i], g),
        ) by {
            let w = choose|w: int| 0 <= w < gs.len() && gs[w].0@ == pod_key(pds[i], g);
            assert(gs2[w].0@ == pod_key(pds[i], g));
        }
        assert forall|i: int| 0 <= i < deps.len() implies has_group(
            gs2,
            #[trigger] deployment_key(deps[i], g),
        ) by {
            let w = choose|w: int| 0 <= w < gs.len() && gs[w].0@ == deployment_key(deps[i], g);
            assert(gs2[w].0@ == deployment_key(deps[i], g));
        }
        assert forall|i: int| 0 <= i < stss.len() implies has_group(
            gs2,
            #[trigger] statefulset_key(stss[i], g),
        ) by {
            let w = choose|w: int| 0 <= w < gs.len() && gs[w].0@ == statefulset_key(stss[i], g);
            assert(gs2[w].0@ == statefulset_key(stss[i], g));
        }
        assert forall|i: int| 0 <= i < dss.len() implies has_group(
            gs2,
            #[trigger] daemonset_key(dss[i], g),
        ) by {
            let w = choose|w: int| 0 <= w < gs.len() && gs[w].0@ == daemonset_key(dss[i], g);
            assert(gs2[w].0@ == daemonset_key(dss[i], g));
        }
        assert forall|i: int| 0 <= i < cms.len() implies has_group(
            gs2,
            #[trigger] configmap_key(cms[i], g),
        ) by {
            let w = choose|w: int| 0 <= w < gs.len() && gs[w].0@ == configmap_key(cms[i], g);
            assert(gs2[w].0@ == configmap_key(cms[i], g));
        }
        assert forall|i: int| 0 <= i < secs.len() implies has_group(
            gs2,
            #[trigger] secret_key(secs[i], g),
        ) by {
            let w = choose|w: int| 0 <= w < gs.len() && gs[w].0@ == secret_key(secs[i], g);
            assert(gs2[w].0@ == secret_key(secs[i], g));
        }
        assert forall|i: int| 0 <= i < gs2.len() implies some_record_keyed(
            #[trigger] gs2[i].0@,
            svcs.push(rec), pds, deps, stss, dss, cms, secs,
            g,
        ) by {
            assert(gs2[i].0 == gs[i].0);
            assert(some_record_keyed(gs[i].0@, svcs, pds, deps, stss, dss, cms, secs, g));
            if exists|w: int| 0 <= w < svcs.len() && service_key(svcs[w], g) == gs[i].0@ {
                let w = choose|w: int| 0 <= w < svcs.len() && service_key(svcs[w], g)
                    == gs[i].0@;
                assert(svcs.push(rec)[w] == svcs[w]);
                assert(service_key(svcs.push(rec)[w], g) == gs2[i].0@);
            }
        }
    }
    lemma_sum_update(gs, bi, p);
}

proof fn lemma_step_service_new(
    gs: Seq<(String, ResourceGroup)>,
    p: (String, ResourceGroup),
    rec: ServiceInfo,
    svcs: Seq<ServiceInfo>,
    pds: Seq<PodInfo>,
    deps: Seq<DeploymentInfo>,
    stss: Seq<StatefulSetInfo>,
    dss: Seq<DaemonSetInfo>,
    cms: Seq<ConfigMapInfo>,
    secs: Seq<SecretInfo>,
    g: GroupBy,
)
    requires
        buckets_ok(gs, svcs, pds, deps, stss, dss, cms, secs, g),
        !(g is NoGrouping),
        !has_group(gs, service_key(rec, g)),
        p.0@ == service_key(rec, g),
        p.1.services@ =~= seq![rec],
        p.1.pods@.len() == 0,
        p.1.deployments@.len() == 0,
        p.1.statefulsets@.len() == 0,
        p.1.daemonsets@.len() == 0,
        p.1.configmaps@.len() == 0,
        p.1.secrets@.len() == 0,
        p.1.group_type@ == group_tag(g),
        p.1.metadata@ == pass_metadata(g),
        p.1.metadata.wf(),
    ensures
        buckets_ok(gs.push(p), svcs.push(rec), pds, deps, stss, dss, cms, secs, g),
{
    let gs2 = gs.push(p);
    let key = p.0@;
    assert forall|i: int, j: int| 0 <= i < j < gs2.len() implies gs2[i].0@ != gs2[j].0@ by {
        if j < gs.len() {
            assert(gs2[i].0 == gs[i].0 && gs2[j].0 == gs[j].0);
        } else {
            assert(gs2[i].0 == gs[i].0);
        }
    }
    assert forall|i: int| 0 <= i < gs2.len() implies bucket_ok(
        #[trigger] gs2[i].0@,
        gs2[i].1,
        svcs.push(rec), pds, deps, stss, dss, cms, secs,
        g,
    ) by {
        let ki = gs2[i].0@;
        let pred = |s: ServiceInfo| service_key(s, g) == ki;
        Seq::lemma_filter_push(svcs, rec, pred);
        if i < gs.len() {
            assert(gs2[i].0 == gs[i].0 && gs2[i].1 == gs[i].1);
            assert(bucket_ok(gs[i].0@, gs[i].1, svcs, pds, deps, stss, dss, cms, secs, g));
            assert(!pred(rec));
        } else {
            assert(gs2[i].1 == p.1);
            assert(pred(rec));
            lemma_filter_empty(svcs, |q: ServiceInfo| service_key(q, g) == ki);
            lemma_filter_empty(pds, |q: PodInfo| pod_key(q, g) == ki);
            lemma_filter_empty(deps, |q: DeploymentInfo| deployment_key(q, g) == ki);
            lemma_filter_empty(stss, |q: StatefulSetInfo| statefulset_key(q, g) == ki);
            lemma_filter_empty(dss, |q: DaemonSetInfo| daemonset_key(q, g) == ki);
            lemma_filter_empty(cms, |q: ConfigMapInfo| configmap_key(q, g) == ki);
            lemma_filter_empty(secs, |q: SecretInfo| secret_key(q, g) == ki);
            assert(p.1.services@ =~= svcs.filter(pred).push(rec));
            assert(p.1.pods@ =~= pds.filter(|q: PodInfo| pod_key(q, g) == ki));
            assert(p.1.deployments@ =~= deps.filter(|q: DeploymentInfo| deployment_key(q, g) == ki));
            assert(p.1.statefulsets@ =~= stss.filter(|q: StatefulSetInfo| statefulset_key(q, g) == ki));
            assert(p.1.daemonsets@ =~= dss.filter(|q: DaemonSetInfo| daemonset_key(q, g) == ki));
            assert(p.1.configmaps@ =~= cms.filter(|q: ConfigMapInfo| configmap_key(q, g) == ki));
            assert(p.1.secrets@ =~= secs.filter(|q: SecretInfo| secret_key(q, g) == ki));
        }
    }
    assert forall|i: int| 0 <= i < svcs.push(rec).len() implies has_group(
        gs2,
        #[trigger] service_key(svcs.push(rec)[i], g),
    ) by {
        if i < svcs.len() {
            assert(svcs.push(rec)[i] == svcs[i]);
            let w = choose|w: int| 0 <= w < gs.len() && gs[w].0@ == service_key(svcs[i], g);
            assert(gs2[w].0@ == service_key(svcs[i], g));
        } else {
            assert(svcs.push(rec)[i] == rec);
            assert(gs2[gs.len() as int].0@ == service_key(rec, g));
        }
    }
    assert forall|i: int| 0 <= i < pds.len() implies has_group(
        gs2,
        #[trigger] pod_key(pds[i], g),
    ) by {
        let w = choose|w: int| 0 <= w < gs.len() && gs[w].0@ == pod_key(pds[i], g);
        assert(gs2[w].0@ == pod_key(pds[i], g));
    }
    assert forall|i: int| 0 <= i < deps.len() implies has_group(
        gs2,
        #[trigger] deployment_key(deps[i], g),
    ) by {
        let w = choose|w: int| 0 <= w < gs.len() && gs[w].0@ == deployment_key(deps[i], g);
        assert(gs2[w].0@ == deployment_key(deps[i], g));
    }
    assert forall|i: int| 0 <= i < stss.len() implies has_group(
        gs2,
        #[trigger] statefulset_key(stss[i], g),
    ) by {
        let w = choose|w: int| 0 <= w < gs.len() && gs[w].0@ == statefulset_key(stss[i], g);
        assert(gs2[w].0@ == statefulset_key(stss[i], g));
    }
    assert forall|i: int| 0 <= i < dss.len() implies has_group(
        gs2,
        #[trigger] daemonset_key(dss[i], g),
    ) by {
        let w = choose|w: int| 0 <= w < gs.len() && gs[w].0@ == daemonset_key(dss[i], g);
        assert(gs2[w].0@ == daemonset_key(dss[i], g));
    }
    assert forall|i: int| 0 <= i < cms.len() implies has_group(
        gs2,
        #[trigger] configmap_key(cms[i], g),
    ) by {
        let w = choose|w: int| 0 <= w < gs.len() && gs[w].0@ == configmap_key(cms[i], g);
        assert(gs2[w].0@ == configmap_key(cms[i], g));
    }
    assert forall|i: int| 0 <= i < secs.len() implies has_group(
        gs2,
        #[trigger] secret_key(secs[i], g),
    ) by {
        let w = choose|w: int| 0 <= w < gs.len() && gs[w].0@ == secret_key(secs[i], g);
        assert(gs2[w].0@ == secret_key(secs[i], g));
    }
    assert forall|i: int| 0 <= i < gs2.len() implies some_record_keyed(
        #[trigger] gs2[i].0@,
        svcs.push(rec), pds, deps, stss, dss, cms, secs,
        g,
    ) by {
        if i < gs.len() {
            assert(gs2[i].0 == gs[i].0);
            assert(some_record_keyed(gs[i].0@, svcs, pds, deps, stss, dss, cms, secs, g));
            if exists|w: int| 0 <= w < svcs.len() && service_key(svcs[w], g) == gs[i].0@ {
                let w = choose|w: int| 0 <= w < svcs.len() && service_key(svcs[w], g)
                    == gs[i].0@;
                assert(svcs.push(rec)[w] == svcs[w]);
                assert(service_key(svcs.push(rec)[w], g) == gs2[i].0@);
            }
        } else {
            assert(gs2[i].0@ == key);
            assert(service_key(svcs.push(rec)[svcs.len() as int], g) == key);
        }
    }
    lemma_sum_push(gs, p);
}

proof fn lemma_step_pod_update(
    gs: Seq<(String, ResourceGroup)>,
    p: (String, ResourceGroup),
    bi: int,
    rec: PodInfo,
    svcs: Seq<ServiceInfo>,
    pds: Seq<PodInfo>,
    deps: Seq<DeploymentInfo>,
    stss: Seq<StatefulSetInfo>,
    dss: Seq<DaemonSetInfo>,
    cms: Seq<ConfigMapInfo>,
    secs: Seq<SecretInfo>,
    g: GroupBy,
)
    requires
        buckets_ok(gs, svcs, pds, deps, stss, dss, cms, secs, g),
        0 <= bi < gs.len(),
        gs[bi].0@ == pod_key(rec, g),
        p.0 == gs[bi].0,
        p.1.pods@ == gs[bi].1.pods@.push(rec),
        p.1.services == gs[bi].1.services,
        p.1.deployments == gs[bi].1.deployments,
        p.1.statefulsets == gs[bi].1.statefulsets,
        p.1.daemonsets == gs[bi].1.daemonsets,
        p.1.configmaps == gs[bi].1.configmaps,
        p.1.secrets == gs[bi].1.secrets,
        p.1.name == gs[bi].1.name,
        p.1.group_type == gs[bi].1.group_type,
        p.1.metadata == gs[bi].1.metadata,
    ensures
        buckets_ok(gs.update(bi, p), svcs, pds.push(rec), deps, stss, dss, cms, secs, g),
{
    let gs2 = gs.update(bi, p);
    let key = gs[bi].0@;
    assert forall|i: int, j: int| 0 <= i < j < gs2.len() implies gs2[i].0@ != gs2[j].0@ by {
        assert(gs2[i].0 == gs[i].0 && gs2[j].0 == gs[j].0);
    }
    assert forall|i: int| 0 <= i < gs2.len() implies bucket_ok(
        #[trigger] gs2[i].0@,
        gs2[i].1,
        svcs, pds.push(rec), deps, stss, dss, cms, secs,
        g,
    ) by {
        let ki = gs2[i].0@;
        let pred = |s: PodInfo| pod_key(s, g) == ki;
        assert(bucket_ok(gs[i].0@, gs[i].1, svcs, pds, deps, stss, dss, cms, secs, g));
        Seq::lemma_filter_push(pds, rec, pred);
        if i == bi {
            assert(pred(rec));
            assert(gs2[i].1.pods@ == pds.filter(pred).push(rec));
        } else {
            assert(gs2[i].0 == gs[i].0 && gs2[i].1 == gs[i].1);
            assert(!pred(rec));
        }
    }
    if !(g is NoGrouping) {
        assert forall|i: int| 0 <= i < svcs.len() implies has_group(
            gs2,
            #[trigger] service_key(svcs[i], g),
        ) by {
            let w = choose|w: int| 0 <= w < gs.len() && gs[w].0@ == service_key(svcs[i], g);
            assert(gs2[w].0@ == service_key(svcs[i], g));
        }
        assert forall|i: int| 0 <= i < pds.push(rec).len() implies has_group(
            gs2,
            #[trigger] pod_key(pds.push(rec)[i], g),
        ) by {
            if i < pds.len() {
                assert(pds.push(rec)[i] == pds[i]);
                let w = choose|w: int| 0 <= w < gs.len() && gs[w].0@ == pod_key(pds[i], g);
                assert(gs2[w].0@ == pod_key(pds[i], g));
            } else {
                assert(pds.push(rec)[i] == rec);
                assert(gs2[bi].0@ == pod_key(rec, g));
            }
        }
        assert forall|i: int| 0 <= i < deps.len() implies has_group(
            gs2,
            #[trigger] deployment_key(deps[i], g),
        ) by {
            let w = choose|w: int| 0 <= w < gs.len() && gs[w].0@ == deployment_key(deps[i], g);
            assert(gs2[w].0@ == deployment_key(deps[i], g));
        }
        assert forall|i: int| 0 <= i < stss.len() implies has_group(
            gs2,
            #[trigger] statefulset_key(stss[i], g),
        ) by {
            let w = choose|w: int| 0 <= w < gs.len() && gs[w].0@ == statefulset_key(stss[i], g);
            assert(gs2[w].0@ == statefulset_key(stss[i], g));
        }
        assert forall|i: int| 0 <= i < dss.len() implies has_group(
            gs2,
            #[trigger] daemonset_key(dss[i], g),
        ) by {
            let w = choose|w: int| 0 <= w < gs.len() && gs[w].0@ == daemonset_key(dss[i], g);
            assert(gs2[w].0@ == daemonset_key(dss[i], g));
        }
        assert forall|i: int| 0 <= i < cms.len() implies has_group(
            gs2,
            #[trigger] configmap_key(cms[i], g),
        ) by {
            let w = choose|w: int| 0 <= w < gs.len() && gs[w].0@ == configmap_key(cms[i], g);
            assert(gs2[w].0@ == configmap_key(cms[i], g));
        }
        assert forall|i: int| 0 <= i < secs.len() implies has_group(
            gs2,
            #[trigger] secret_key(secs[i], g),
        ) by {
            let w = choose|w: int| 0 <= w < gs.len() && gs[w].0@ == secret_key(secs[i], g);
            assert(gs2[w].0@ == secret_key(secs[i], g));
        }
        assert forall|i: int| 0 <= i < gs2.len() implies some_record_keyed(
            #[trigger] gs2[i].0@,
            svcs, pds.push(rec), deps, stss, dss, cms, secs,
            g,
        ) by {
            assert(gs2[i].0 == gs[i].0);
            assert(some_record_keyed(gs[i].0@, svcs, pds, deps, stss, dss, cms, secs, g));
            if exists|w: int| 0 <= w < pds.len() && pod_key(pds[w], g) == gs[i].0@ {
                let w = choose|w: int| 0 <= w < pds.len() && pod_key(pds[w], g)
                    == gs[i].0@;
                assert(pds.push(rec)[w] == pds[w]);
                assert(pod_key(pds.push(rec)[w], g) == gs2[i].0@);
            }
        }
    }
    lemma_sum_update(gs, bi, p);
}

proof fn lemma_step_pod_new(
    gs: Seq<(String, ResourceGroup)>,
    p: (String, ResourceGroup),
    rec: PodInfo,
    svcs: Seq<ServiceInfo>,
    pds: Seq<PodInfo>,
    deps: Seq<DeploymentInfo>,
    stss: Seq<StatefulSetInfo>,
    dss: Seq<DaemonSetInfo>,
    cms: Seq<ConfigMapInfo>,
    secs: Seq<SecretInfo>,
    g: GroupBy,
)
    requires
        buckets_ok(gs, svcs, pds, deps, stss, dss, cms, secs, g),
        !(g is NoGrouping),
        !has_group(gs, pod_key(rec, g)),
        p.0@ == pod_key(rec, g),
        p.1.pods@ =~= seq![rec],
        p.1.services@.len() == 0,
        p.1.deployments@.len() == 0,
        p.1.statefulsets@.len() == 0,
        p.1.daemonsets@.len() == 0,
        p.1.configmaps@.len() == 0,
        p.1.secrets@.len() == 0,
        p.1.group_type@ == group_tag(g),
        p.1.metadata@ == pass_metadata(g),
        p.1.metadata.wf(),
    ensures
        buckets_ok(gs.push(p), svcs, pds.push(rec), deps, stss, dss, cms, secs, g),
{
    let gs2 = gs.push(p);
    let key = p.0@;
    assert forall|i: int, j: int| 0 <= i < j < gs2.len() implies gs2[i].0@ != gs2[j].0@ by {
        if j < gs.len() {
            assert(gs2[i].0 == gs[i].0 && gs2[j].0 == gs[j].0);
        } else {
            assert(gs2[i].0 == gs[i].0);
        }
    }
    assert forall|i: int| 0 <= i < gs2.len() implies bucket_ok(
        #[trigger] gs2[i].0@,
        gs2[i].1,
        svcs, pds.push(rec), deps, stss, dss, cms, secs,
        g,
    ) by {
        let ki = gs2[i].0@;
        let pred = |s: PodInfo| pod_key(s, g) == ki;
        Seq::lemma_filter_push(pds, rec, pred);
        if i < gs.len() {
            assert(gs2[i].0 == gs[i].0 && gs2[i].1 == gs[i].1);
            assert(bucket_ok(gs[i].0@, gs[i].1, svcs, pds, deps, stss, dss, cms, secs, g));
            assert(!pred(rec));
        } else {
            assert(gs2[i].1 == p.1);
            assert(pred(rec));
            lemma_filter_empty(svcs, |q: ServiceInfo| service_key(q, g) == ki);
            lemma_filter_empty(pds, |q: PodInfo| pod_key(q, g) == ki);
            lemma_filter_empty(deps, |q: DeploymentInfo| deployment_key(q, g) == ki);
            lemma_filter_empty(stss, |q: StatefulSetInfo| statefulset_key(q, g) == ki);
            lemma_filter_empty(dss, |q: DaemonSetInfo| daemonset_key(q, g) == ki);
            lemma_filter_empty(cms, |q: ConfigMapInfo| configmap_key(q, g) == ki);
            lemma_filter_empty(secs, |q: SecretInfo| secret_key(q, g) == ki);
            assert(p.1.services@ =~= svcs.filter(|q: ServiceInfo| service_key(q, g) == ki));
            assert(p.1.pods@ =~= pds.filter(pred).push(rec));
            assert(p.1.deployments@ =~= deps.filter(|q: DeploymentInfo| deployment_key(q, g) == ki));
            assert(p.1.statefulsets@ =~= stss.filter(|q: StatefulSetInfo| statefulset_key(q, g) == ki));
            assert(p.1.daemonsets@ =~= dss.filter(|q: DaemonSetInfo| daemonset_key(q, g) == ki));
            assert(p.1.configmaps@ =~= cms.filter(|q: ConfigMapInfo| configmap_key(q, g) == ki));
            assert(p.1.secrets@ =~= secs.filter(|q: SecretInfo| secret_key(q, g) == ki));
        }
    }
    assert forall|i: int| 0 <= i < svcs.len() implies has_group(
        gs2,
        #[trigger] service_key(svcs[i], g),
    ) by {
        let w = choose|w: int| 0 <= w < gs.len() && gs[w].0@ == service_key(svcs[i], g);
        assert(gs2[w].0@ == service_key(svcs[i], g));
    }
    assert forall|i: int| 0 <= i < pds.push(rec).len() implies has_group(
        gs2,
        #[trigger] pod_key(pds.push(rec)[i], g),
    ) by {
        if i < pds.len() {
            assert(pds.push(rec)[i] == pds[i]);
            let w = choose|w: int| 0 <= w < gs.len() && gs[w].0@ == pod_key(pds[i], g);
            assert(gs2[w].0@ == pod_key(pds[i], g));
        } else {
            assert(pds.push(rec)[i] == rec);
            assert(gs2[gs.len() as int].0@ == pod_key(rec, g));
        }
    }
    assert forall|i: int| 0 <= i < deps.len() implies has_group(
        gs2,
        #[trigger] deployment_key(deps[i], g),
    ) by {
        let w = choose|w: int| 0 <= w < gs.len() && gs[w].0@ == deployment_key(deps[i], g);
        assert(gs2[w].0@ == deployment_key(deps[i], g));
    }
    assert forall|i: int| 0 <= i < stss.len() implies has_group(
        gs2,
        #[trigger] statefulset_key(stss[i], g),
    ) by {
        let w = choose|w: int| 0 <= w < gs.len() && gs[w].0@ == statefulset_key(stss[i], g);
        assert(gs2[w].0@ == statefulset_key(stss[i], g));
    }
    assert forall|i: int| 0 <= i < dss.len() implies has_group(
        gs2,
        #[trigger] daemonset_key(dss[i], g),
    ) by {
        let w = choose|w: int| 0 <= w < gs.len() && gs[w].0@ == daemonset_key(dss[i], g);
        assert(gs2[w].0@ == daemonset_key(dss[i], g));
    }
    assert forall|i: int| 0 <= i < cms.len() implies has_group(
        gs2,
        #[trigger] configmap_key(cms[i], g),
    ) by {
        let w = choose|w: int| 0 <= w < gs.len() && gs[w].0@ == configmap_key(cms[i], g);
        assert(gs2[w].0@ == configmap_key(cms[i], g));
    }
    assert forall|i: int| 0 <= i < secs.len() implies has_group(
        gs2,
        #[trigger] secret_key(secs[i], g),
    ) by {
        let w = choose|w: int| 0 <= w < gs.len() && gs[w].0@ == secret_key(secs[i], g);
        assert(gs2[w].0@ == secret_key(secs[i], g));
    }
    assert forall|i: int| 0 <= i < gs2.len() implies some_record_keyed(
        #[trigger] gs2[i].0@,
        svcs, pds.push(rec), deps, stss, dss, cms, secs,
        g,
    ) by {
        if i < gs.len() {
            assert(gs2[i].0 == gs[i].0);
            assert(some_record_keyed(gs[i].0@, svcs, pds, deps, stss, dss, cms, secs, g));
            if exists|w: int| 0 <= w < pds.len() && pod_key(pds[w], g) == gs[i].0@ {
                let w = choose|w: int| 0 <= w < pds.len() && pod_key(pds[w], g)
                    == gs[i].0@;
                assert(pds.push(rec)[w] == pds[w]);
                assert(pod_key(pds.push(rec)[w], g) == gs2[i].0@);
            }
        } else {
            assert(gs2[i].0@ == key);
            assert(pod_key(pds.push(rec)[pds.len() as int], g) == key);
        }
    }
    lemma_sum_push(gs, p);
}

proof fn lemma_step_deployment_update(
    gs: Seq<(String, ResourceGroup)>,
    p: (String, ResourceGroup),
    bi: int,
    rec: DeploymentInfo,
    svcs: Seq<ServiceInfo>,
    pds: Seq<PodInfo>,
    deps: Seq<DeploymentInfo>,
    stss: Seq<StatefulSetInfo>,
    dss: Seq<DaemonSetInfo>,
    cms: Seq<ConfigMapInfo>,
    secs: Seq<SecretInfo>,
    g: GroupBy,
)
    requires
        buckets_ok(gs, svcs, pds, deps, stss, dss, cms, secs, g),
        0 <= bi < gs.len(),
        gs[bi].0@ == deployment_key(rec, g),
        p.0 == gs[bi].0,
        p.1.deployments@ == gs[bi].1.deployments@.push(rec),
        p.1.services == gs[bi].1.services,
        p.1.pods == gs[bi].1.pods,
        p.1.statefulsets == gs[bi].1.statefulsets,
        p.1.daemonsets == gs[bi].1.daemonsets,
        p.1.configmaps == gs[bi].1.configmaps,
        p.1.secrets == gs[bi].1.secrets,
        p.1.name == gs[bi].1.name,
        p.1.group_type == gs[bi].1.group_type,
        p.1.metadata == gs[bi].1.metadata,
    ensures
        buckets_ok(gs.update(bi, p), svcs, pds, deps.push(rec), stss, dss, cms, secs, g),
{
    let gs2 = gs.update(bi, p);
    let key = gs[bi].0@;
    assert forall|i: int, j: int| 0 <= i < j < gs2.len() implies gs2[i].0@ != gs2[j].0@ by {
        assert(gs2[i].0 == gs[i].0 && gs2[j].0 == gs[j].0);
    }
    assert forall|i: int| 0 <= i < gs2.len() implies bucket_ok(
        #[trigger] gs2[i].0@,
        gs2[i].1,
        svcs, pds, deps.push(rec), stss, dss, cms, secs,
        g,
    ) by {
        let ki = gs2[i].0@;
        let pred = |s: DeploymentInfo| deployment_key(s, g) == ki;
        assert(bucket_ok(gs[i].0@, gs[i].1, svcs, pds, deps, stss, dss, cms, secs, g));
        Seq::lemma_filter_push(deps, rec, pred);
        if i == bi {
            assert(pred(rec));
            assert(gs2[i].1.deployments@ == deps.filter(pred).push(rec));
        } else {
            assert(gs2[i].0 == gs[i].0 && gs2[i].1 == gs[i].1);
            assert(!pred(rec));
        }
    }
    if !(g is NoGrouping) {
        assert forall|i: int| 0 <= i < svcs.len() implies has_group(
            gs2,
            #[trigger] service_key(svcs[i], g),
        ) by {
            let w = choose|w: int| 0 <= w < gs.len() && gs[w].0@ == service_key(svcs[i], g);
            assert(gs2[w].0@ == service_key(svcs[i], g));
        }
        assert forall|i: int| 0 <= i < pds.len() implies has_group(
            gs2,
            #[trigger] pod_key(pds[i], g),
        ) by {
            let w = choose|w: int| 0 <= w < gs.len() && gs[w].0@ == pod_key(pds[i], g);
            assert(gs2[w].0@ == pod_key(pds[i], g));
        }
        assert forall|i: int| 0 <= i < deps.push(rec).len() implies has_group(
            gs2,
            #[trigger] deployment_key(deps.push(rec)[i], g),
        ) by {
            if i < deps.len() {
                assert(deps.push(rec)[i] == deps[i]);
                let w = choose|w: int| 0 <= w < gs.len() && gs[w].0@ == deployment_key(deps[i], g);
                assert(gs2[w].0@ == deployment_key(deps[i], g));
            } else {
                assert(deps.push(rec)[i] == rec);
                assert(gs2[bi].0@ == deployment_key(rec, g));
            }
        }
        assert forall|i: int| 0 <= i < stss.len() implies has_group(
            gs2,
            #[trigger] statefulset_key(stss[i], g),
        ) by {
            let w = choose|w: int| 0 <= w < gs.len() && gs[w].0@ == statefulset_key(stss[i], g);
            assert(gs2[w].0@ == statefulset_key(stss[i], g));
        }
        assert forall|i: int| 0 <= i < dss.len() implies has_group(
            gs2,
            #[trigger] daemonset_key(dss[i], g),
        ) by {
            let w = choose|w: int| 0 <= w < gs.len() && gs[w].0@ == daemonset_key(dss[i], g);
            assert(gs2[w].0@ == daemonset_key(dss[i], g));
        }
        assert forall|i: int| 0 <= i < cms.len() implies has_group(
            gs2,
            #[trigger] configmap_key(cms[i], g),
        ) by {
            let w = choose|w: int| 0 <= w < gs.len() && gs[w].0@ == configmap_key(cms[i], g);
            assert(gs2[w].0@ == configmap_key(cms[i], g));
        }
        assert forall|i: int| 0 <= i < secs.len() implies has_group(
            gs2,
            #[trigger] secret_key(secs[i], g),
        ) by {
            let w = choose|w: int| 0 <= w < gs.len() && gs[w].0@ == secret_key(secs[i], g);
            assert(gs2[w].0@ == secret_key(secs[i], g));
        }
        assert forall|i: int| 0 <= i < gs2.len() implies some_record_keyed(
            #[trigger] gs2[i].0@,
            svcs, pds, deps.push(rec), stss, dss, cms, secs,
            g,
        ) by {
            assert(gs2[i].0 == gs[i].0);
            assert(some_record_keyed(gs[i].0@, svcs, pds, deps, stss, dss, cms, secs, g));
            if exists|w: int| 0 <= w < deps.len() && deployment_key(deps[w], g) == gs[i].0@ {
                let w = choose|w: int| 0 <= w < deps.len() && deployment_key(deps[w], g)
                    == gs[i].0@;
                assert(deps.push(rec)[w] == deps[w]);
                assert(deployment_key(deps.push(rec)[w], g) == gs2[i].0@);
            }
        }
    }
    lemma_sum_update(gs, bi, p);
}

proof fn lemma_step_deployment_new(
    gs: Seq<(String, ResourceGroup)>,
    p: (String, ResourceGroup),
    rec: DeploymentInfo,
    svcs: Seq<ServiceInfo>,
    pds: Seq<PodInfo>,
    deps: Seq<DeploymentInfo>,
    stss: Seq<StatefulSetInfo>,
    dss: Seq<DaemonSetInfo>,
    cms: Seq<ConfigMapInfo>,
    secs: Seq<SecretInfo>,
    g: GroupBy,
)
    requires
        buckets_ok(gs, svcs, pds, deps, stss, dss, cms, secs, g),
        !(g is NoGrouping),
        !has_group(gs, deployment_key(rec, g)),
        p.0@ == deployment_key(rec, g),
        p.1.deployments@ =~= seq![rec],
        p.1.services@.len() == 0,
        p.1.pods@.len() == 0,
        p.1.statefulsets@.len() == 0,
        p.1.daemonsets@.len() == 0,
        p.1.configmaps@.len() == 0,
        p.1.secrets@.len() == 0,
        p.1.group_type@ == group_tag(g),
        p.1.metadata@ == pass_metadata(g),
        p.1.metadata.wf(),
    ensures
        buckets_ok(gs.push(p), svcs, pds, deps.push(rec), stss, dss, cms, secs, g),
{
    let gs2 = gs.push(p);
    let key = p.0@;
    assert forall|i: int, j: int| 0 <= i < j < gs2.len() implies gs2[i].0@ != gs2[j].0@ by {
        if j < gs.len() {
            assert(gs2[i].0 == gs[i].0 && gs2[j].0 == gs[j].0);
        } else {
            assert(gs2[i].0 == gs[i].0);
        }
    }
    assert forall|i: int| 0 <= i < gs2.len() implies bucket_ok(
        #[trigger] gs2[i].0@,
        gs2[i].1,
        svcs, pds, deps.push(rec), stss, dss, cms, secs,
        g,
    ) by {
        let ki = gs2[i].0@;
        let pred = |s: DeploymentInfo| deployment_key(s, g) == ki;
        Seq::lemma_filter_push(deps, rec, pred);
        if i < gs.len() {
            assert(gs2[i].0 == gs[i].0 && gs2[i].1 == gs[i].1);
            assert(bucket_ok(gs[i].0@, gs[i].1, svcs, pds, deps, stss, dss, cms, secs, g));
            assert(!pred(rec));
        } else {
            assert(gs2[i].1 == p.1);
            assert(pred(rec));
            lemma_filter_empty(svcs, |q: ServiceInfo| service_key(q, g) == ki);
            lemma_filter_empty(pds, |q: PodInfo| pod_key(q, g) == ki);
            lemma_filter_empty(deps, |q: DeploymentInfo| deployment_key(q, g) == ki);
            lemma_filter_empty(stss, |q: StatefulSetInfo| statefulset_key(q, g) == ki);
            lemma_filter_empty(dss, |q: DaemonSetInfo| daemonset_key(q, g) == ki);
            lemma_filter_empty(cms, |q: ConfigMapInfo| configmap_key(q, g) == ki);
            lemma_filter_empty(secs, |q: SecretInfo| secret_key(q, g) == ki);
            assert(p.1.services@ =~= svcs.filter(|q: ServiceInfo| service_key(q, g) == ki));
            assert(p.1.pods@ =~= pds.filter(|q: PodInfo| pod_key(q, g) == ki));
            assert(p.1.deployments@ =~= deps.filter(pred).push(rec));
            assert(p.1.statefulsets@ =~= stss.filter(|q: StatefulSetInfo| statefulset_key(q, g) == ki));
            assert(p.1.daemonsets@ =~= dss.filter(|q: DaemonSetInfo| daemonset_key(q, g) == ki));
            assert(p.1.configmaps@ =~= cms.filter(|q: ConfigMapInfo| configmap_key(q, g) == ki));
            assert(p.1.secrets@ =~= secs.filter(|q: SecretInfo| secret_key(q, g) == ki));
        }
    }
    assert forall|i: int| 0 <= i < svcs.len() implies has_group(
        gs2,
        #[trigger] service_key(svcs[i], g),
    ) by {
        let w = choose|w: int| 0 <= w < gs.len() && gs[w].0@ == service_key(svcs[i], g);
        assert(gs2[w].0@ == service_key(svcs[i], g));
    }
    assert forall|i: int| 0 <= i < pds.len() implies has_group(
        gs2,
        #[trigger] pod_key(pds[i], g),
    ) by {
        let w = choose|w: int| 0 <= w < gs.len() && gs[w].0@ == pod_key(pds[i], g);
        assert(gs2[w].0@ == pod_key(pds[i], g));
    }
    assert forall|i: int| 0 <= i < deps.push(rec).len() implies has_group(
        gs2,
        #[trigger] deployment_key(deps.push(rec)[i], g),
    ) by {
        if i < deps.len() {
            assert(deps.push(rec)[i] == deps[i]);
            let w = choose|w: int| 0 <= w < gs.len() && gs[w].0@ == deployment_key(deps[i], g);
            assert(gs2[w].0@ == deployment_key(deps[i], g));
        } else {
            assert(deps.push(rec)[i] == rec);
            assert(gs2[gs.len() as int].0@ == deployment_key(rec, g));
        }
    }
    assert forall|i: int| 0 <= i < stss.len() implies has_group(
        gs2,
        #[trigger] statefulset_key(stss[i], g),
    ) by {
        let w = choose|w: int| 0 <= w < gs.len() && gs[w].0@ == statefulset_key(stss[i], g);
        assert(gs2[w].0@ == statefulset_key(stss[i], g));
    }
    assert forall|i: int| 0 <= i < dss.len() implies has_group(
        gs2,
        #[trigger] daemonset_key(dss[i], g),
    ) by {
        let w = choose|w: int| 0 <= w < gs.len() && gs[w].0@ == daemonset_key(dss[i], g);
        assert(gs2[w].0@ == daemonset_key(dss[i], g));
    }
    assert forall|i: int| 0 <= i < cms.len() implies has_group(
        gs2,
        #[trigger] configmap_key(cms[i], g),
    ) by {
        let w = choose|w: int| 0 <= w < gs.len() && gs[w].0@ == configmap_key(cms[i], g);
        assert(gs2[w].0@ == configmap_key(cms[i], g));
    }
    assert forall|i: int| 0 <= i < secs.len() implies has_group(
        gs2,
        #[trigger] secret_key(secs[i], g),
    ) by {
        let w = choose|w: int| 0 <= w < gs.len() && gs[w].0@ == secret_key(secs[i], g);
        assert(gs2[w].0@ == secret_key(secs[i], g));
    }
    assert forall|i: int| 0 <= i < gs2.len() implies some_record_keyed(
        #[trigger] gs2[i].0@,
        svcs, pds, deps.push(rec), stss, dss, cms, secs,
        g,
    ) by {
        if i < gs.len() {
            assert(gs2[i].0 == gs[i].0);
            assert(some_record_keyed(gs[i].0@, svcs, pds, deps, stss, dss, cms, secs, g));
            if exists|w: int| 0 <= w < deps.len() && deployment_key(deps[w], g) == gs[i].0@ {
                let w = choose|w: int| 0 <= w < deps.len() && deployment_key(deps[w], g)
                    == gs[i].0@;
                assert(deps.push(rec)[w] == deps[w]);
                assert(deployment_key(deps.push(rec)[w], g) == gs2[i].0@);
            }
        } else {
            assert(gs2[i].0@ == key);
            assert(deployment_key(deps.push(rec)[deps.len() as int], g) == key);
        }
    }
    lemma_sum_push(gs, p);
}

proof fn lemma_step_statefulset_update(
    gs: Seq<(String, ResourceGroup)>,
    p: (String, ResourceGroup),
    bi: int,
    rec: StatefulSetInfo,
    svcs: Seq<ServiceInfo>,
    pds: Seq<PodInfo>,
    deps: Seq<DeploymentInfo>,
    stss: Seq<StatefulSetInfo>,
    dss: Seq<DaemonSetInfo>,
    cms: Seq<ConfigMapInfo>,
    secs: Seq<SecretInfo>,
    g: GroupBy,
)
    requires
        buckets_ok(gs, svcs, pds, deps, stss, dss, cms, secs, g),
        0 <= bi < gs.len(),
        gs[bi].0@ == statefulset_key(rec, g),
        p.0 == gs[bi].0,
        p.1.statefulsets@ == gs[bi].1.statefulsets@.push(rec),
        p.1.services == gs[bi].1.services,
        p.1.pods == gs[bi].1.pods,
        p.1.deployments == gs[bi].1.deployments,
        p.1.daemonsets == gs[bi].1.daemonsets,
        p.1.configmaps == gs[bi].1.configmaps,
        p.1.secrets == gs[bi].1.secrets,
        p.1.name == gs[bi].1.name,
        p.1.group_type == gs[bi].1.group_type,
        p.1.metadata == gs[bi].1.metadata,
    ensures
        buckets_ok(gs.update(bi, p), svcs, pds, deps, stss.push(rec), dss, cms, secs, g),
{
    let gs2 = gs.update(bi, p);
    let key = gs[bi].0@;
    assert forall|i: int, j: int| 0 <= i < j < gs2.len() implies gs2[i].0@ != gs2[j].0@ by {
        assert(gs2[i].0 == gs[i].0 && gs2[j].0 == gs[j].0);
    }
    assert forall|i: int| 0 <= i < gs2.len() implies bucket_ok(
        #[trigger] gs2[i].0@,
        gs2[i].1,
        svcs, pds, deps, stss.push(rec), dss, cms, secs,
        g,
    ) by {
        let ki = gs2[i].0@;
        let pred = |s: StatefulSetInfo| statefulset_key(s, g) == ki;
        assert(bucket_ok(gs[i].0@, gs[i].1, svcs, pds, deps, stss, dss, cms, secs, g));
        Seq::lemma_filter_push(stss, rec, pred);
        if i == bi {
            assert(pred(rec));
            assert(gs2[i].1.statefulsets@ == stss.filter(pred).push(rec));
        } else {
            assert(gs2[i].0 == gs[i].0 && gs2[i].1 == gs[i].1);
            assert(!pred(rec));
        }
    }
    if !(g is NoGrouping) {
        assert forall|i: int| 0 <= i < svcs.len() implies has_group(
            gs2,
            #[trigger] service_key(svcs[i], g),
        ) by {
            let w = choose|w: int| 0 <= w < gs.len() && gs[w].0@ == service_key(svcs[i], g);
            assert(gs2[w].0@ == service_key(svcs[i], g));
        }
        assert forall|i: int| 0 <= i < pds.len() implies has_group(
            gs2,
            #[trigger] pod_key(pds[i], g),
        ) by {
            let w = choose|w: int| 0 <= w < gs.len() && gs[w].0@ == pod_key(pds[i], g);
            assert(gs2[w].0@ == pod_key(pds[i], g));
        }
        assert forall|i: int| 0 <= i < deps.len() implies has_group(
            gs2,
            #[trigger] deployment_key(deps[i], g),
        ) by {
            let w = choose|w: int| 0 <= w < gs.len() && gs[w].0@ == deployment_key(deps[i], g);
            assert(gs2[w].0@ == deployment_key(deps[i], g));
        }
        assert forall|i: int| 0 <= i < stss.push(rec).len() implies has_group(
            gs2,
            #[trigger] statefulset_key(stss.push(rec)[i], g),
        ) by {
            if i < stss.len() {
                assert(stss.push(rec)[i] == stss[i]);
                let w = choose|w: int| 0 <= w < gs.len() && gs[w].0@ == statefulset_key(stss[i], g);
                assert(gs2[w].0@ == statefulset_key(stss[i], g));
            } else {
                assert(stss.push(rec)[i] == rec);
                assert(gs2[bi].0@ == statefulset_key(rec, g));
            }
        }
        assert forall|i: int| 0 <= i < dss.len() implies has_group(
            gs2,
            #[trigger] daemonset_key(dss[i], g),
        ) by {
            let w = choose|w: int| 0 <= w < gs.len() && gs[w].0@ == daemonset_key(dss[i], g);
            assert(gs2[w].0@ == daemonset_key(dss[i], g));
        }
        assert forall|i: int| 0 <= i < cms.len() implies has_group(
            gs2,
            #[trigger] configmap_key(cms[i], g),
        ) by {
            let w = choose|w: int| 0 <= w < gs.len() && gs[w].0@ == configmap_key(cms[i], g);
            assert(gs2[w].0@ == configmap_key(cms[i], g));
        }
        assert forall|i: int| 0 <= i < secs.len() implies has_group(
            gs2,
            #[trigger] secret_key(secs[i], g),
        ) by {
            let w = choose|w: int| 0 <= w < gs.len() && gs[w].0@ == secret_key(secs[i], g);
            assert(gs2[w].0@ == secret_key(secs[i], g));
        }
        assert forall|i: int| 0 <= i < gs2.len() implies some_record_keyed(
            #[trigger] gs2[i].0@,
            svcs, pds, deps, stss.push(rec), dss, cms, secs,
            g,
        ) by {
            assert(gs2[i].0 == gs[i].0);
            assert(some_record_keyed(gs[i].0@, svcs, pds, deps, stss, dss, cms, secs, g));
            if exists|w: int| 0 <= w < stss.len() && statefulset_key(stss[w], g) == gs[i].0@ {
                let w = choose|w: int| 0 <= w < stss.len() && statefulset_key(stss[w], g)
                    == gs[i].0@;
                assert(stss.push(rec)[w] == stss[w]);
                assert(statefulset_key(stss.push(rec)[w], g) == gs2[i].0@);
            }
        }
    }
    lemma_sum_update(gs, bi, p);
}

proof fn lemma_step_statefulset_new(
    gs: Seq<(String, ResourceGroup)>,
    p: (String, ResourceGroup),
    rec: StatefulSetInfo,
    svcs: Seq<ServiceInfo>,
    pds: Seq<PodInfo>,
    deps: Seq<DeploymentInfo>,
    stss: Seq<StatefulSetInfo>,
    dss: Seq<DaemonSetInfo>,
    cms: Seq<ConfigMapInfo>,
    secs: Seq<SecretInfo>,
    g: GroupBy,
)
    requires
        buckets_ok(gs, svcs, pds, deps, stss, dss, cms, secs, g),
        !(g is NoGrouping),
        !has_group(gs, statefulset_key(rec, g)),
        p.0@ == statefulset_key(rec, g),
        p.1.statefulsets@ =~= seq![rec],
        p.1.services@.len() == 0,
        p.1.pods@.len() == 0,
        p.1.deployments@.len() == 0,
        p.1.daemonsets@.len() == 0,
        p.1.configmaps@.len() == 0,
        p.1.secrets@.len() == 0,
        p.1.group_type@ == group_tag(g),
        p.1.metadata@ == pass_metadata(g),
        p.1.metadata.wf(),
    ensures
        buckets_ok(gs.push(p), svcs, pds, deps, stss.push(rec), dss, cms, secs, g),
{
    let gs2 = gs.push(p);
    let key = p.0@;
    assert forall|i: int, j: int| 0 <= i < j < gs2.len() implies gs2[i].0@ != gs2[j].0@ by {
        if j < gs.len() {
            assert(gs2[i].0 == gs[i].0 && gs2[j].0 == gs[j].0);
        } else {
            assert(gs2[i].0 == gs[i].0);
        }
    }
    assert forall|i: int| 0 <= i < gs2.len() implies bucket_ok(
        #[trigger] gs2[i].0@,
        gs2[i].1,
        svcs, pds, deps, stss.push(rec), dss, cms, secs,
        g,
    ) by {
        let ki = gs2[i].0@;
        let pred = |s: StatefulSetInfo| statefulset_key(s, g) == ki;
        Seq::lemma_filter_push(stss, rec, pred);
        if i < gs.len() {
            assert(gs2[i].0 == gs[i].0 && gs2[i].1 == gs[i].1);
            assert(bucket_ok(gs[i].0@, gs[i].1, svcs, pds, deps, stss, dss, cms, secs, g));
            assert(!pred(rec));
        } else {
            assert(gs2[i].1 == p.1);
            assert(pred(rec));
            lemma_filter_empty(svcs, |q: ServiceInfo| service_key(q, g) == ki);
            lemma_filter_empty(pds, |q: PodInfo| pod_key(q, g) == ki);
            lemma_filter_empty(deps, |q: DeploymentInfo| deployment_key(q, g) == ki);
            lemma_filter_empty(stss, |q: StatefulSetInfo| statefulset_key(q, g) == ki);
            lemma_filter_empty(dss, |q: DaemonSetInfo| daemonset_key(q, g) == ki);
            lemma_filter_empty(cms, |q: ConfigMapInfo| configmap_key(q, g) == ki);
            lemma_filter_empty(secs, |q: SecretInfo| secret_key(q, g) == ki);
            assert(p.1.services@ =~= svcs.filter(|q: ServiceInfo| service_key(q, g) == ki));
            assert(p.1.pods@ =~= pds.filter(|q: PodInfo| pod_key(q, g) == ki));
            assert(p.1.deployments@ =~= deps.filter(|q: DeploymentInfo| deployment_key(q, g) == ki));
            assert(p.1.statefulsets@ =~= stss.filter(pred).push(rec));
            assert(p.1.daemonsets@ =~= dss.filter(|q: DaemonSetInfo| daemonset_key(q, g) == ki));
            assert(p.1.configmaps@ =~= cms.filter(|q: ConfigMapInfo| configmap_key(q, g) == ki));
            assert(p.1.secrets@ =~= secs.filter(|q: SecretInfo| secret_key(q, g) == ki));
        }
    }
    assert forall|i: int| 0 <= i < svcs.len() implies has_group(
        gs2,
        #[trigger] service_key(svcs[i], g),
    ) by {
        let w = choose|w: int| 0 <= w < gs.len() && gs[w].0@ == service_key(svcs[i], g);
        assert(gs2[w].0@ == service_key(svcs[i], g));
    }
    assert forall|i: int| 0 <= i < pds.len() implies has_group(
        gs2,
        #[trigger] pod_key(pds[i], g),
    ) by {
        let w = choose|w: int| 0 <= w < gs.len() && gs[w].0@ == pod_key(pds[i], g);
        assert(gs2[w].0@ == pod_key(pds[i], g));
    }
    assert forall|i: int| 0 <= i < deps.len() implies has_group(
        gs2,
        #[trigger] deployment_key(deps[i], g),
    ) by {
        let w = choose|w: int| 0 <= w < gs.len() && gs[w].0@ == deployment_key(deps[i], g);
        assert(gs2[w].0@ == deployment_key(deps[i], g));
    }
    assert forall|i: int| 0 <= i < stss.push(rec).len() implies has_group(
        gs2,
        #[trigger] statefulset_key(stss.push(rec)[i], g),
    ) by {
        if i < stss.len() {
            assert(stss.push(rec)[i] == stss[i]);
            let w = choose|w: int| 0 <= w < gs.len() && gs[w].0@ == statefulset_key(stss[i], g);
            assert(gs2[w].0@ == statefulset_key(stss[i], g));
        } else {
            assert(stss.push(rec)[i] == rec);
            assert(gs2[gs.len() as int].0@ == statefulset_key(rec, g));
        }
    }
    assert forall|i: int| 0 <= i < dss.len() implies has_group(
        gs2,
        #[trigger] daemonset_key(dss[i], g),
    ) by {
        let w = choose|w: int| 0 <= w < gs.len() && gs[w].0@ == daemonset_key(dss[i], g);
        assert(gs2[w].0@ == daemonset_key(dss[i], g));
    }
    assert forall|i: int| 0 <= i < cms.len() implies has_group(
        gs2,
        #[trigger] configmap_key(cms[i], g),
    ) by {
        let w = choose|w: int| 0 <= w < gs.len() && gs[w].0@ == configmap_key(cms[i], g);
        assert(gs2[w].0@ == configmap_key(cms[i], g));
    }
    assert forall|i: int| 0 <= i < secs.len() implies has_group(
        gs2,
        #[trigger] secret_key(secs[i], g),
    ) by {
        let w = choose|w: int| 0 <= w < gs.len() && gs[w].0@ == secret_key(secs[i], g);
        assert(gs2[w].0@ == secret_key(secs[i], g));
    }
    assert forall|i: int| 0 <= i < gs2.len() implies some_record_keyed(
        #[trigger] gs2[i].0@,
        svcs, pds, deps, stss.push(rec), dss, cms, secs,
        g,
    ) by {
        if i < gs.len() {
            assert(gs2[i].0 == gs[i].0);
            assert(some_record_keyed(gs[i].0@, svcs, pds, deps, stss, dss, cms, secs, g));
            if exists|w: int| 0 <= w < stss.len() && statefulset_key(stss[w], g) == gs[i].0@ {
                let w = choose|w: int| 0 <= w < stss.len() && statefulset_key(stss[w], g)
                    == gs[i].0@;
                assert(stss.push(rec)[w] == stss[w]);
                assert(statefulset_key(stss.push(rec)[w], g) == gs2[i].0@);
            }
        } else {
            assert(gs2[i].0@ == key);
            assert(statefulset_key(stss.push(rec)[stss.len() as int], g) == key);
        }
    }
    lemma_sum_push(gs, p);
}

proof fn lemma_step_daemonset_update(
    gs: Seq<(String, ResourceGroup)>,
    p: (String, ResourceGroup),
    bi: int,
    rec: DaemonSetInfo,
    svcs: Seq<ServiceInfo>,
    pds: Seq<PodInfo>,
    deps: Seq<DeploymentInfo>,
    stss: Seq<StatefulSetInfo>,
    dss: Seq<DaemonSetInfo>,
    cms: Seq<ConfigMapInfo>,
    secs: Seq<SecretInfo>,
    g: GroupBy,
)
    requires
        buckets_ok(gs, svcs, pds, deps, stss, dss, cms, secs, g),
        0 <= bi < gs.len(),
        gs[bi].0@ == daemonset_key(rec, g),
        p.0 == gs[bi].0,
        p.1.daemonsets@ == gs[bi].1.daemonsets@.push(rec),
        p.1.services == gs[bi].1.services,
        p.1.pods == gs[bi].1.pods,
        p.1.deployments == gs[bi].1.deployments,
        p.1.statefulsets == gs[bi].1.statefulsets,
        p.1.configmaps == gs[bi].1.configmaps,
        p.1.secrets == gs[bi].1.secrets,
        p.1.name == gs[bi].1.name,
        p.1.group_type == gs[bi].1.group_type,
        p.1.metadata == gs[bi].1.metadata,
    ensures
        buckets_ok(gs.update(bi, p), svcs, pds, deps, stss, dss.push(rec), cms, secs, g),
{
    let gs2 = gs.update(bi, p);
    let key = gs[bi].0@;
    assert forall|i: int, j: int| 0 <= i < j < gs2.len() implies gs2[i].0@ != gs2[j].0@ by {
        assert(gs2[i].0 == gs[i].0 && gs2[j].0 == gs[j].0);
    }
    assert forall|i: int| 0 <= i < gs2.len() implies bucket_ok(
        #[trigger] gs2[i].0@,
        gs2[i].1,
        svcs, pds, deps, stss, dss.push(rec), cms, secs,
        g,
    ) by {
        let ki = gs2[i].0@;
        let pred = |s: DaemonSetInfo| daemonset_key(s, g) == ki;
        assert(bucket_ok(gs[i].0@, gs[i].1, svcs, pds, deps, stss, dss, cms, secs, g));
        Seq::lemma_filter_push(dss, rec, pred);
        if i == bi {
            assert(pred(rec));
            assert(gs2[i].1.daemonsets@ == dss.filter(pred).push(rec));
        } else {
            assert(gs2[i].0 == gs[i].0 && gs2[i].1 == gs[i].1);
            assert(!pred(rec));
        }
    }
    if !(g is NoGrouping) {
        assert forall|i: int| 0 <= i < svcs.len() implies has_group(
            gs2,
            #[trigger] service_key(svcs[i], g),
        ) by {
            let w = choose|w: int| 0 <= w < gs.len() && gs[w].0@ == service_key(svcs[i], g);
            assert(gs2[w].0@ == service_key(svcs[i], g));
        }
        assert forall|i: int| 0 <= i < pds.len() implies has_group(
            gs2,
            #[trigger] pod_key(pds[i], g),
        ) by {
            let w = choose|w: int| 0 <= w < gs.len() && gs[w].0@ == pod_key(pds[i], g);
            assert(gs2[w].0@ == pod_key(pds[i], g));
        }
        assert forall|i: int| 0 <= i < deps.len() implies has_group(
            gs2,
            #[trigger] deployment_key(deps[i], g),
        ) by {
            let w = choose|w: int| 0 <= w < gs.len() && gs[w].0@ == deployment_key(deps[i], g);
            assert(gs2[w].0@ == deployment_key(deps[i], g));
        }
        assert forall|i: int| 0 <= i < stss.len() implies has_group(
            gs2,
            #[trigger] statefulset_key(stss[i], g),
        ) by {
            let w = choose|w: int| 0 <= w < gs.len() && gs[w].0@ == statefulset_key(stss[i], g);
            assert(gs2[w].0@ == statefulset_key(stss[i], g));
        }
        assert forall|i: int| 0 <= i < dss.push(rec).len() implies has_group(
            gs2,
            #[trigger] daemonset_key(dss.push(rec)[i], g),
        ) by {
            if i < dss.len() {
                assert(dss.push(rec)[i] == dss[i]);
                let w = choose|w: int| 0 <= w < gs.len() && gs[w].0@ == daemonset_key(dss[i], g);
                assert(gs2[w].0@ == daemonset_key(dss[i], g));
            } else {
                assert(dss.push(rec)[i] == rec);
                assert(gs2[bi].0@ == daemonset_key(rec, g));
            }
        }
        assert forall|i: int| 0 <= i < cms.len() implies has_group(
            gs2,
            #[trigger] configmap_key(cms[i], g),
        ) by {
            let w = choose|w: int| 0 <= w < gs.len() && gs[w].0@ == configmap_key(cms[i], g);
            assert(gs2[w].0@ == configmap_key(cms[i], g));
        }
        assert forall|i: int| 0 <= i < secs.len() implies has_group(
            gs2,
            #[trigger] secret_key(secs[i], g),
        ) by {
            let w = choose|w: int| 0 <= w < gs.len() && gs[w].0@ == secret_key(secs[i], g);
            assert(gs2[w].0@ == secret_key(secs[i], g));
        }
        assert forall|i: int| 0 <= i < gs2.len() implies some_record_keyed(
            #[trigger] gs2[i].0@,
            svcs, pds, deps, stss, dss.push(rec), cms, secs,
            g,
        ) by {
            assert(gs2[i].0 == gs[i].0);
            assert(some_record_keyed(gs[i].0@, svcs, pds, deps, stss, dss, cms, secs, g));
            if exists|w: int| 0 <= w < dss.len() && daemonset_key(dss[w], g) == gs[i].0@ {
                let w = choose|w: int| 0 <= w < dss.len() && daemonset_key(dss[w], g)
                    == gs[i].0@;
                assert(dss.push(rec)[w] == dss[w]);
                assert(daemonset_key(dss.push(rec)[w], g) == gs2[i].0@);
            }
        }
    }
    lemma_sum_update(gs, bi, p);
}

proof fn lemma_step_daemonset_new(
    gs: Seq<(String, ResourceGroup)>,
    p: (String, ResourceGroup),
    rec: DaemonSetInfo,
    svcs: Seq<ServiceInfo>,
    pds: Seq<PodInfo>,
    deps: Seq<DeploymentInfo>,
    stss: Seq<StatefulSetInfo>,
    dss: Seq<DaemonSetInfo>,
    cms: Seq<ConfigMapInfo>,
    secs: Seq<SecretInfo>,
    g: GroupBy,
)
    requires
        buckets_ok(gs, svcs, pds, deps, stss, dss, cms, secs, g),
        !(g is NoGrouping),
        !has_group(gs, daemonset_key(rec, g)),
        p.0@ == daemonset_key(rec, g),
        p.1.daemonsets@ =~= seq![rec],
        p.1.services@.len() == 0,
        p.1.pods@.len() == 0,
        p.1.deployments@.len() == 0,
        p.1.statefulsets@.len() == 0,
        p.1.configmaps@.len() == 0,
        p.1.secrets@.len() == 0,
        p.1.group_type@ == group_tag(g),
        p.1.metadata@ == pass_metadata(g),
        p.1.metadata.wf(),
    ensures
        buckets_ok(gs.push(p), svcs, pds, deps, stss, dss.push(rec), cms, secs, g),
{
    let gs2 = gs.push(p);
    let key = p.0@;
    assert forall|i: int, j: int| 0 <= i < j < gs2.len() implies gs2[i].0@ != gs2[j].0@ by {
        if j < gs.len() {
            assert(gs2[i].0 == gs[i].0 && gs2[j].0 == gs[j].0);
        } else {
            assert(gs2[i].0 == gs[i].0);
        }
    }
    assert forall|i: int| 0 <= i < gs2.len() implies bucket_ok(
        #[trigger] gs2[i].0@,
        gs2[i].1,
        svcs, pds, deps, stss, dss.push(rec), cms, secs,
        g,
    ) by {
        let ki = gs2[i].0@;
        let pred = |s: DaemonSetInfo| daemonset_key(s, g) == ki;
        Seq::lemma_filter_push(dss, rec, pred);
        if i < gs.len() {
            assert(gs2[i].0 == gs[i].0 && gs2[i].1 == gs[i].1);
            assert(bucket_ok(gs[i].0@, gs[i].1, svcs, pds, deps, stss, dss, cms, secs, g));
            assert(!pred(rec));
        } else {
            assert(gs2[i].1 == p.1);
            assert(pred(rec));
            lemma_filter_empty(svcs, |q: ServiceInfo| service_key(q, g) == ki);
            lemma_filter_empty(pds, |q: PodInfo| pod_key(q, g) == ki);
            lemma_filter_empty(deps, |q: DeploymentInfo| deployment_key(q, g) == ki);
            lemma_filter_empty(stss, |q: StatefulSetInfo| statefulset_key(q, g) == ki);
            lemma_filter_empty(dss, |q: DaemonSetInfo| daemonset_key(q, g) == ki);
            lemma_filter_empty(cms, |q: ConfigMapInfo| configmap_key(q, g) == ki);
            lemma_filter_empty(secs, |q: SecretInfo| secret_key(q, g) == ki);
            assert(p.1.services@ =~= svcs.filter(|q: ServiceInfo| service_key(q, g) == ki));
            assert(p.1.pods@ =~= pds.filter(|q: PodInfo| pod_key(q, g) == ki));
            assert(p.1.deployments@ =~= deps.filter(|q: DeploymentInfo| deployment_key(q, g) == ki));
            assert(p.1.statefulsets@ =~= stss.filter(|q: StatefulSetInfo| statefulset_key(q, g) == ki));
            assert(p.1.daemonsets@ =~= dss.filter(pred).push(rec));
            assert(p.1.configmaps@ =~= cms.filter(|q: ConfigMapInfo| configmap_key(q, g) == ki));
            assert(p.1.secrets@ =~= secs.filter(|q: SecretInfo| secret_key(q, g) == ki));
        }
    }
    assert forall|i: int| 0 <= i < svcs.len() implies has_group(
        gs2,
        #[trigger] service_key(svcs[i], g),
    ) by {
        let w = choose|w: int| 0 <= w < gs.len() && gs[w].0@ == service_key(svcs[i], g);
        assert(gs2[w].0@ == service_key(svcs[i], g));
    }
    assert forall|i: int| 0 <= i < pds.len() implies has_group(
        gs2,
        #[trigger] pod_key(pds[i], g),
    ) by {
        let w = choose|w: int| 0 <= w < gs.len() && gs[w].0@ == pod_key(pds[i], g);
        assert(gs2[w].0@ == pod_key(pds[i], g));
    }
    assert forall|i: int| 0 <= i < deps.len() implies has_group(
        gs2,
        #[trigger] deployment_key(deps[i], g),
    ) by {
        let w = choose|w: int| 0 <= w < gs.len() && gs[w].0@ == deployment_key(deps[i], g);
        assert(gs2[w].0@ == deployment_key(deps[i], g));
    }
    assert forall|i: int| 0 <= i < stss.len() implies has_group(
        gs2,
        #[trigger] statefulset_key(stss[i], g),
    ) by {
        let w = choose|w: int| 0 <= w < gs.len() && gs[w].0@ == statefulset_key(stss[i], g);
        assert(gs2[w].0@ == statefulset_key(stss[i], g));
    }
    assert forall|i: int| 0 <= i < dss.push(rec).len() implies has_group(
        gs2,
        #[trigger] daemonset_key(dss.push(rec)[i], g),
    ) by {
        if i < dss.len() {
            assert(dss.push(rec)[i] == dss[i]);
            let w = choose|w: int| 0 <= w < gs.len() && gs[w].0@ == daemonset_key(dss[i], g);
            assert(gs2[w].0@ == daemonset_key(dss[i], g));
        } else {
            assert(dss.push(rec)[i] == rec);
            assert(gs2[gs.len() as int].0@ == daemonset_key(rec, g));
        }
    }
    assert forall|i: int| 0 <= i < cms.len() implies has_group(
        gs2,
        #[trigger] configmap_key(cms[i], g),
    ) by {
        let w = choose|w: int| 0 <= w < gs.len() && gs[w].0@ == configmap_key(cms[i], g);
        assert(gs2[w].0@ == configmap_key(cms[i], g));
    }
    assert forall|i: int| 0 <= i < secs.len() implies has_group(
        gs2,
        #[trigger] secret_key(secs[i], g),
    ) by {
        let w = choose|w: int| 0 <= w < gs.len() && gs[w].0@ == secret_key(secs[i], g);
        assert(gs2[w].0@ == secret_key(secs[i], g));
    }
    assert forall|i: int| 0 <= i < gs2.len() implies some_record_keyed(
        #[trigger] gs2[i].0@,
        svcs, pds, deps, stss, dss.push(rec), cms, secs,
        g,
    ) by {
        if i < gs.len() {
            assert(gs2[i].0 == gs[i].0);
            assert(some_record_keyed(gs[i].0@, svcs, pds, deps, stss, dss, cms, secs, g));
            if exists|w: int| 0 <= w < dss.len() && daemonset_key(dss[w], g) == gs[i].0@ {
                let w = choose|w: int| 0 <= w < dss.len() && daemonset_key(dss[w], g)
                    == gs[i].0@;
                assert(dss.push(rec)[w] == dss[w]);
                assert(daemonset_key(dss.push(rec)[w], g) == gs2[i].0@);
            }
        } else {
            assert(gs2[i].0@ == key);
            assert(daemonset_key(dss.push(rec)[dss.len() as int], g) == key);
        }
    }
    lemma_sum_push(gs, p);
}

proof fn lemma_step_configmap_update(
    gs: Seq<(String, ResourceGroup)>,
    p: (String, ResourceGroup),
    bi: int,
    rec: ConfigMapInfo,
    svcs: Seq<ServiceInfo>,
    pds: Seq<PodInfo>,
    deps: Seq<DeploymentInfo>,
    stss: Seq<StatefulSetInfo>,
    dss: Seq<DaemonSetInfo>,
    cms: Seq<ConfigMapInfo>,
    secs: Seq<SecretInfo>,
    g: GroupBy,
)
    requires
        buckets_ok(gs, svcs, pds, deps, stss, dss, cms, secs, g),
        0 <= bi < gs.len(),
        gs[bi].0@ == configmap_key(rec, g),
        p.0 == gs[bi].0,
        p.1.configmaps@ == gs[bi].1.configmaps@.push(rec),
        p.1.services == gs[bi].1.services,
        p.1.pods == gs[bi].1.pods,
        p.1.deployments == gs[bi].1.deployments,
        p.1.statefulsets == gs[bi].1.statefulsets,
        p.1.daemonsets == gs[bi].1.daemonsets,
        p.1.secrets == gs[bi].1.secrets,
        p.1.name == gs[bi].1.name,
        p.1.group_type == gs[bi].1.group_type,
        p.1.metadata == gs[bi].1.metadata,
    ensures
        buckets_ok(gs.update(bi, p), svcs, pds, deps, stss, dss, cms.push(rec), secs, g),
{
    let gs2 = gs.update(bi, p);
    let key = gs[bi].0@;
    assert forall|i: int, j: int| 0 <= i < j < gs2.len() implies gs2[i].0@ != gs2[j].0@ by {
        assert(gs2[i].0 == gs[i].0 && gs2[j].0 == gs[j].0);
    }
    assert forall|i: int| 0 <= i < gs2.len() implies bucket_ok(
        #[trigger] gs2[i].0@,
        gs2[i].1,
        svcs, pds, deps, stss, dss, cms.push(rec), secs,
        g,
    ) by {
        let ki = gs2[i].0@;
        let pred = |s: ConfigMapInfo| configmap_key(s, g) == ki;
        assert(bucket_ok(gs[i].0@, gs[i].1, svcs, pds, deps, stss, dss, cms, secs, g));
        Seq::lemma_filter_push(cms, rec, pred);
        if i == bi {
            assert(pred(rec));
            assert(gs2[i].1.configmaps@ == cms.filter(pred).push(rec));
        } else {
            assert(gs2[i].0 == gs[i].0 && gs2[i].1 == gs[i].1);
            assert(!pred(rec));
        }
    }
    if !(g is NoGrouping) {
        assert forall|i: int| 0 <= i < svcs.len() implies has_group(
            gs2,
            #[trigger] service_key(svcs[i], g),
        ) by {
            let w = choose|w: int| 0 <= w < gs.len() && gs[w].0@ == service_key(svcs[i], g);
            assert(gs2[w].0@ == service_key(svcs[i], g));
        }
        assert forall|i: int| 0 <= i < pds.len() implies has_group(
            gs2,
            #[trigger] pod_key(pds[i], g),
        ) by {
            let w = choose|w: int| 0 <= w < gs.len() && gs[w].0@ == pod_key(pds[i], g);
            assert(gs2[w].0@ == pod_key(pds[i], g));
        }
        assert forall|i: int| 0 <= i < deps.len() implies has_group(
            gs2,
            #[trigger] deployment_key(deps[i], g),
        ) by {
            let w = choose|w: int| 0 <= w < gs.len() && gs[w].0@ == deployment_key(deps[i], g);
            assert(gs2[w].0@ == deployment_key(deps[i], g));
        }
        assert forall|i: int| 0 <= i < stss.len() implies has_group(
            gs2,
            #[trigger] statefulset_key(stss[i], g),
        ) by {
            let w = choose|w: int| 0 <= w < gs.len() && gs[w].0@ == statefulset_key(stss[i], g);
            assert(gs2[w].0@ == statefulset_key(stss[i], g));
        }
        assert forall|i: int| 0 <= i < dss.len() implies has_group(
            gs2,
            #[trigger] daemonset_key(dss[i], g),
        ) by {
            let w = choose|w: int| 0 <= w < gs.len() && gs[w].0@ == daemonset_key(dss[i], g);
            assert(gs2[w].0@ == daemonset_key(dss[i], g));
        }
        assert forall|i: int| 0 <= i < cms.push(rec).len() implies has_group(
            gs2,
            #[trigger] configmap_key(cms.push(rec)[i], g),
        ) by {
            if i < cms.len() {
                assert(cms.push(rec)[i] == cms[i]);
                let w = choose|w: int| 0 <= w < gs.len() && gs[w].0@ == configmap_key(cms[i], g);
                assert(gs2[w].0@ == configmap_key(cms[i], g));
            } else {
                assert(cms.push(rec)[i] == rec);
                assert(gs2[bi].0@ == configmap_key(rec, g));
            }
        }
        assert forall|i: int| 0 <= i < secs.len() implies has_group(
            gs2,
            #[trigger] secret_key(secs[i], g),
        ) by {
            let w = choose|w: int| 0 <= w < gs.len() && gs[w].0@ == secret_key(secs[i], g);
            assert(gs2[w].0@ == secret_key(secs[i], g));
        }
        assert forall|i: int| 0 <= i < gs2.len() implies some_record_keyed(
            #[trigger] gs2[i].0@,
            svcs, pds, deps, stss, dss, cms.push(rec), secs,
            g,
        ) by {
            assert(gs2[i].0 == gs[i].0);
            assert(some_record_keyed(gs[i].0@, svcs, pds, deps, stss, dss, cms, secs, g));
            if exists|w: int| 0 <= w < cms.len() && configmap_key(cms[w], g) == gs[i].0@ {
                let w = choose|w: int| 0 <= w < cms.len() && configmap_key(cms[w], g)
                    == gs[i].0@;
                assert(cms.push(rec)[w] == cms[w]);
                assert(configmap_key(cms.push(rec)[w], g) == gs2[i].0@);
            }
        }
    }
    lemma_sum_update(gs, bi, p);
}

proof fn lemma_step_configmap_new(
    gs: Seq<(String, ResourceGroup)>,
    p: (String, ResourceGroup),
    rec: ConfigMapInfo,
    svcs: Seq<ServiceInfo>,
    pds: Seq<PodInfo>,
    deps: Seq<DeploymentInfo>,
    stss: Seq<StatefulSetInfo>,
    dss: Seq<DaemonSetInfo>,
    cms: Seq<ConfigMapInfo>,
    secs: Seq<SecretInfo>,
    g: GroupBy,
)
    requires
        buckets_ok(gs, svcs, pds, deps, stss, dss, cms, secs, g),
        !(g is NoGrouping),
        !has_group(gs, configmap_key(rec, g)),
        p.0@ == configmap_key(rec, g),
        p.1.configmaps@ =~= seq![rec],
        p.1.services@.len() == 0,
        p.1.pods@.len() == 0,
        p.1.deployments@.len() == 0,
        p.1.statefulsets@.len() == 0,
        p.1.daemonsets@.len() == 0,
        p.1.secrets@.len() == 0,
        p.1.group_type@ == group_tag(g),
        p.1.metadata@ == pass_metadata(g),
        p.1.metadata.wf(),
    ensures
        buckets_ok(gs.push(p), svcs, pds, deps, stss, dss, cms.push(rec), secs, g),
{
    let gs2 = gs.push(p);
    let key = p.0@;
    assert forall|i: int, j: int| 0 <= i < j < gs2.len() implies gs2[i].0@ != gs2[j].0@ by {
        if j < gs.len() {
            assert(gs2[i].0 == gs[i].0 && gs2[j].0 == gs[j].0);
        } else {
            assert(gs2[i].0 == gs[i].0);
        }
    }
    assert forall|i: int| 0 <= i < gs2.len() implies bucket_ok(
        #[trigger] gs2[i].0@,
        gs2[i].1,
        svcs, pds, deps, stss, dss, cms.push(rec), secs,
        g,
    ) by {
        let ki = gs2[i].0@;
        let pred = |s: ConfigMapInfo| configmap_key(s, g) == ki;
        Seq::lemma_filter_push(cms, rec, pred);
        if i < gs.len() {
            assert(gs2[i].0 == gs[i].0 && gs2[i].1 == gs[i].1);
            assert(bucket_ok(gs[i].0@, gs[i].1, svcs, pds, deps, stss, dss, cms, secs, g));
            assert(!pred(rec));
        } else {
            assert(gs2[i].1 == p.1);
            assert(pred(rec));
            lemma_filter_empty(svcs, |q: ServiceInfo| service_key(q, g) == ki);
            lemma_filter_empty(pds, |q: PodInfo| pod_key(q, g) == ki);
            lemma_filter_empty(deps, |q: DeploymentInfo| deployment_key(q, g) == ki);
            lemma_filter_empty(stss, |q: StatefulSetInfo| statefulset_key(q, g) == ki);
            lemma_filter_empty(dss, |q: DaemonSetInfo| daemonset_key(q, g) == ki);
            lemma_filter_empty(cms, |q: ConfigMapInfo| configmap_key(q, g) == ki);
            lemma_filter_empty(secs, |q: SecretInfo| secret_key(q, g) == ki);
            assert(p.1.services@ =~= svcs.filter(|q: ServiceInfo| service_key(q, g) == ki));
            assert(p.1.pods@ =~= pds.filter(|q: PodInfo| pod_key(q, g) == ki));
            assert(p.1.deployments@ =~= deps.filter(|q: DeploymentInfo| deployment_key(q, g) == ki));
            assert(p.1.statefulsets@ =~= stss.filter(|q: StatefulSetInfo| statefulset_key(q, g) == ki));
            assert(p.1.daemonsets@ =~= dss.filter(|q: DaemonSetInfo| daemonset_key(q, g) == ki));
            assert(p.1.configmaps@ =~= cms.filter(pred).push(rec));
            assert(p.1.secrets@ =~= secs.filter(|q: SecretInfo| secret_key(q, g) == ki));
        }
    }
    assert forall|i: int| 0 <= i < svcs.len() implies has_group(
        gs2,
        #[trigger] service_key(svcs[i], g),
    ) by {
        let w = choose|w: int| 0 <= w < gs.len() && gs[w].0@ == service_key(svcs[i], g);
        assert(gs2[w].0@ == service_key(svcs[i], g));
    }
    assert forall|i: int| 0 <= i < pds.len() implies has_group(
        gs2,
        #[trigger] pod_key(pds[i], g),
    ) by {
        let w = choose|w: int| 0 <= w < gs.len() && gs[w].0@ == pod_key(pds[i], g);
        assert(gs2[w].0@ == pod_key(pds[i], g));
    }
    assert forall|i: int| 0 <= i < deps.len() implies has_group(
        gs2,
        #[trigger] deployment_key(deps[i], g),
    ) by {
        let w = choose|w: int| 0 <= w < gs.len() && gs[w].0@ == deployment_key(deps[i], g);
        assert(gs2[w].0@ == deployment_key(deps[i], g));
    }
    assert forall|i: int| 0 <= i < stss.len() implies has_group(
        gs2,
        #[trigger] statefulset_key(stss[i], g),
    ) by {
        let w = choose|w: int| 0 <= w < gs.len() && gs[w].0@ == statefulset_key(stss[i], g);
        assert(gs2[w].0@ == statefulset_key(stss[i], g));
    }
    assert forall|i: int| 0 <= i < dss.len() implies has_group(
        gs2,
        #[trigger] daemonset_key(dss[i], g),
    ) by {
        let w = choose|w: int| 0 <= w < gs.len() && gs[w].0@ == daemonset_key(dss[i], g);
        assert(gs2[w].0@ == daemonset_key(dss[i], g));
    }
    assert forall|i: int| 0 <= i < cms.push(rec).len() implies has_group(
        gs2,
        #[trigger] configmap_key(cms.push(rec)[i], g),
    ) by {
        if i < cms.len() {
            assert(cms.push(rec)[i] == cms[i]);
            let w = choose|w: int| 0 <= w < gs.len() && gs[w].0@ == configmap_key(cms[i], g);
            assert(gs2[w].0@ == configmap_key(cms[i], g));
        } else {
            assert(cms.push(rec)[i] == rec);
            assert(gs2[gs.len() as int].0@ == configmap_key(rec, g));
        }
    }
    assert forall|i: int| 0 <= i < secs.len() implies has_group(
        gs2,
        #[trigger] secret_key(secs[i], g),
    ) by {
        let w = choose|w: int| 0 <= w < gs.len() && gs[w].0@ == secret_key(secs[i], g);
        assert(gs2[w].0@ == secret_key(secs[i], g));
    }
    assert forall|i: int| 0 <= i < gs2.len() implies some_record_keyed(
        #[trigger] gs2[i].0@,
        svcs, pds, deps, stss, dss, cms.push(rec), secs,
        g,
    ) by {
        if i < gs.len() {
            assert(gs2[i].0 == gs[i].0);
            assert(some_record_keyed(gs[i].0@, svcs, pds, deps, stss, dss, cms, secs, g));
            if exists|w: int| 0 <= w < cms.len() && configmap_key(cms[w], g) == gs[i].0@ {
                let w = choose|w: int| 0 <= w < cms.len() && configmap_key(cms[w], g)
                    == gs[i].0@;
                assert(cms.push(rec)[w] == cms[w]);
                assert(configmap_key(cms.push(rec)[w], g) == gs2[i].0@);
            }
        } else {
            assert(gs2[i].0@ == key);
            assert(configmap_key(cms.push(rec)[cms.len() as int], g) == key);
        }
    }
    lemma_sum_push(gs, p);
}

proof fn lemma_step_secret_update(
    gs: Seq<(String, ResourceGroup)>,
    p: (String, ResourceGroup),
    bi: int,
    rec: SecretInfo,
    svcs: Seq<ServiceInfo>,
    pds: Seq<PodInfo>,
    deps: Seq<DeploymentInfo>,
    stss: Seq<StatefulSetInfo>,
    dss: Seq<DaemonSetInfo>,
    cms: Seq<ConfigMapInfo>,
    secs: Seq<SecretInfo>,
    g: GroupBy,
)
    requires
        buckets_ok(gs, svcs, pds, deps, stss, dss, cms, secs, g),
        0 <= bi < gs.len(),
        gs[bi].0@ == secret_key(rec, g),
        p.0 == gs[bi].0,
        p.1.secrets@ == gs[bi].1.secrets@.push(rec),
        p.1.services == gs[bi].1.services,
        p.1.pods == gs[bi].1.pods,
        p.1.deployments == gs[bi].1.deployments,
        p.1.statefulsets == gs[bi].1.statefulsets,
        p.1.daemonsets == gs[bi].1.daemonsets,
        p.1.configmaps == gs[bi].1.configmaps,
        p.1.name == gs[bi].1.name,
        p.1.group_type == gs[bi].1.group_type,
        p.1.metadata == gs[bi].1.metadata,
    ensures
        buckets_ok(gs.update(bi, p), svcs, pds, deps, stss, dss, cms, secs.push(rec), g),
{
    let gs2 = gs.update(bi, p);
    let key = gs[bi].0@;
    assert forall|i: int, j: int| 0 <= i < j < gs2.len() implies gs2[i].0@ != gs2[j].0@ by {
        assert(gs2[i].0 == gs[i].0 && gs2[j].0 == gs[j].0);
    }
    assert forall|i: int| 0 <= i < gs2.len() implies bucket_ok(
        #[trigger] gs2[i].0@,
        gs2[i].1,
        svcs, pds, deps, stss, dss, cms, secs.push(rec),
        g,
    ) by {
        let ki = gs2[i].0@;
        let pred = |s: SecretInfo| secret_key(s, g) == ki;
        assert(bucket_ok(gs[i].0@, gs[i].1, svcs, pds, deps, stss, dss, cms, secs, g));
        Seq::lemma_filter_push(secs, rec, pred);
        if i == bi {
            assert(pred(rec));
            assert(gs2[i].1.secrets@ == secs.filter(pred).push(rec));
        } else {
            assert(gs2[i].0 == gs[i].0 && gs2[i].1 == gs[i].1);
            assert(!pred(rec));
        }
    }
    if !(g is NoGrouping) {
        assert forall|i: int| 0 <= i < svcs.len() implies has_group(
            gs2,
            #[trigger] service_key(svcs[i], g),
        ) by {
            let w = choose|w: int| 0 <= w < gs.len() && gs[w].0@ == service_key(svcs[i], g);
            assert(gs2[w].0@ == service_key(svcs[i], g));
        }
        assert forall|i: int| 0 <= i < pds.len() implies has_group(
            gs2,
            #[trigger] pod_key(pds[i], g),
        ) by {
            let w = choose|w: int| 0 <= w < gs.len() && gs[w].0@ == pod_key(pds[i], g);
            assert(gs2[w].0@ == pod_key(pds[i], g));
        }
        assert forall|i: int| 0 <= i < deps.len() implies has_group(
            gs2,
            #[trigger] deployment_key(deps[i], g),
        ) by {
            let w = choose|w: int| 0 <= w < gs.len() && gs[w].0@ == deployment_key(deps[i], g);
            assert(gs2[w].0@ == deployment_key(deps[i], g));
        }
        assert forall|i: int| 0 <= i < stss.len() implies has_group(
            gs2,
            #[trigger] statefulset_key(stss[i], g),
        ) by {
            let w = choose|w: int| 0 <= w < gs.len() && gs[w].0@ == statefulset_key(stss[i], g);
            assert(gs2[w].0@ == statefulset_key(stss[i], g));
        }
        assert forall|i: int| 0 <= i < dss.len() implies has_group(
            gs2,
            #[trigger] daemonset_key(dss[i], g),
        ) by {
            let w = choose|w: int| 0 <= w < gs.len() && gs[w].0@ == daemonset_key(dss[i], g);
            assert(gs2[w].0@ == daemonset_key(dss[i], g));
        }
        assert forall|i: int| 0 <= i < cms.len() implies has_group(
            gs2,
            #[trigger] configmap_key(cms[i], g),
        ) by {
            let w = choose|w: int| 0 <= w < gs.len() && gs[w].0@ == configmap_key(cms[i], g);
            assert(gs2[w].0@ == configmap_key(cms[i], g));
        }
        assert forall|i: int| 0 <= i < secs.push(rec).len() implies has_group(
            gs2,
            #[trigger] secret_key(secs.push(rec)[i], g),
        ) by {
            if i < secs.len() {
                assert(secs.push(rec)[i] == secs[i]);
                let w = choose|w: int| 0 <= w < gs.len() && gs[w].0@ == secret_key(secs[i], g);
                assert(gs2[w].0@ == secret_key(secs[i], g));
            } else {
                assert(secs.push(rec)[i] == rec);
                assert(gs2[bi].0@ == secret_key(rec, g));
            }
        }
        assert forall|i: int| 0 <= i < gs2.len() implies some_record_keyed(
            #[trigger] gs2[i].0@,
            svcs, pds, deps, stss, dss, cms, secs.push(rec),
            g,
        ) by {
            assert(gs2[i].0 == gs[i].0);
            assert(some_record_keyed(gs[i].0@, svcs, pds, deps, stss, dss, cms, secs, g));
            if exists|w: int| 0 <= w < secs.len() && secret_key(secs[w], g) == gs[i].0@ {
                let w = choose|w: int| 0 <= w < secs.len() && secret_key(secs[w], g)
                    == gs[i].0@;
                assert(secs.push(rec)[w] == secs[w]);
                assert(secret_key(secs.push(rec)[w], g) == gs2[i].0@);
            }
        }
    }
    lemma_sum_update(gs, bi, p);
}

proof fn lemma_step_secret_new(
    gs: Seq<(String, ResourceGroup)>,
    p: (String, ResourceGroup),
    rec: SecretInfo,
    svcs: Seq<ServiceInfo>,
    pds: Seq<PodInfo>,
    deps: Seq<DeploymentInfo>,
    stss: Seq<StatefulSetInfo>,
    dss: Seq<DaemonSetInfo>,
    cms: Seq<ConfigMapInfo>,
    secs: Seq<SecretInfo>,
    g: GroupBy,
)
    requires
        buckets_ok(gs, svcs, pds, deps, stss, dss, cms, secs, g),
        !(g is NoGrouping),
        !has_group(gs, secret_key(rec, g)),
        p.0@ == secret_key(rec, g),
        p.1.secrets@ =~= seq![rec],
        p.1.services@.len() == 0,
        p.1.pods@.len() == 0,
        p.1.deployments@.len() == 0,
        p.1.statefulsets@.len() == 0,
        p.1.daemonsets@.len() == 0,
        p.1.configmaps@.len() == 0,
        p.1.group_type@ == group_tag(g),
        p.1.metadata@ == pass_metadata(g),
        p.1.metadata.wf(),
    ensures
        buckets_ok(gs.push(p), svcs, pds, deps, stss, dss, cms, secs.push(rec), g),
{
    let gs2 = gs.push(p);
    let key = p.0@;
    assert forall|i: int, j: int| 0 <= i < j < gs2.len() implies gs2[i].0@ != gs2[j].0@ by {
        if j < gs.len() {
            assert(gs2[i].0 == gs[i].0 && gs2[j].0 == gs[j].0);
        } else {
            assert(gs2[i].0 == gs[i].0);
        }
    }
    assert forall|i: int| 0 <= i < gs2.len() implies bucket_ok(
        #[trigger] gs2[i].0@,
        gs2[i].1,
        svcs, pds, deps, stss, dss, cms, secs.push(rec),
        g,
    ) by {
        let ki = gs2[i].0@;
        let pred = |s: SecretInfo| secret_key(s, g) == ki;
        Seq::lemma_filter_push(secs, rec, pred);
        if i < gs.len() {
            assert(gs2[i].0 == gs[i].0 && gs2[i].1 == gs[i].1);
            assert(bucket_ok(gs[i].0@, gs[i].1, svcs, pds, deps, stss, dss, cms, secs, g));
            assert(!pred(rec));
        } else {
            assert(gs2[i].1 == p.1);
            assert(pred(rec));
            lemma_filter_empty(svcs, |q: ServiceInfo| service_key(q, g) == ki);
            lemma_filter_empty(pds, |q: PodInfo| pod_key(q, g) == ki);
            lemma_filter_empty(deps, |q: DeploymentInfo| deployment_key(q, g) == ki);
            lemma_filter_empty(stss, |q: StatefulSetInfo| statefulset_key(q, g) == ki);
            lemma_filter_empty(dss, |q: DaemonSetInfo| daemonset_key(q, g) == ki);
            lemma_filter_empty(cms, |q: ConfigMapInfo| configmap_key(q, g) == ki);
            lemma_filter_empty(secs, |q: SecretInfo| secret_key(q, g) == ki);
            assert(p.1.services@ =~= svcs.filter(|q: ServiceInfo| service_key(q, g) == ki));
            assert(p.1.pods@ =~= pds.filter(|q: PodInfo| pod_key(q, g) == ki));
            assert(p.1.deployments@ =~= deps.filter(|q: DeploymentInfo| deployment_key(q, g) == ki));
            assert(p.1.statefulsets@ =~= stss.filter(|q: StatefulSetInfo| statefulset_key(q, g) == ki));
            assert(p.1.daemonsets@ =~= dss.filter(|q: DaemonSetInfo| daemonset_key(q, g) == ki));
            assert(p.1.configmaps@ =~= cms.filter(|q: ConfigMapInfo| configmap_key(q, g) == ki));
            assert(p.1.secrets@ =~= secs.filter(pred).push(rec));
        }
    }
    assert forall|i: int| 0 <= i < svcs.len() implies has_group(
        gs2,
        #[trigger] service_key(svcs[i], g),
    ) by {
        let w = choose|w: int| 0 <= w < gs.len() && gs[w].0@ == service_key(svcs[i], g);
        assert(gs2[w].0@ == service_key(svcs[i], g));
    }
    assert forall|i: int| 0 <= i < pds.len() implies has_group(
        gs2,
        #[trigger] pod_key(pds[i], g),
    ) by {
        let w = choose|w: int| 0 <= w < gs.len() && gs[w].0@ == pod_key(pds[i], g);
        assert(gs2[w].0@ == pod_key(pds[i], g));
    }
    assert forall|i: int| 0 <= i < deps.len() implies has_group(
        gs2,
        #[trigger] deployment_key(deps[i], g),
    ) by {
        let w = choose|w: int| 0 <= w < gs.len() && gs[w].0@ == deployment_key(deps[i], g);
        assert(gs2[w].0@ == deployment_key(deps[i], g));
    }
    assert forall|i: int| 0 <= i < stss.len() implies has_group(
        gs2,
        #[trigger] statefulset_key(stss[i], g),
    ) by {
        let w = choose|w: int| 0 <= w < gs.len() && gs[w].0@ == statefulset_key(stss[i], g);
        assert(gs2[w].0@ == statefulset_key(stss[i], g));
    }
    assert forall|i: int| 0 <= i < dss.len() implies has_group(
        gs2,
        #[trigger] daemonset_key(dss[i], g),
    ) by {
        let w = choose|w: int| 0 <= w < gs.len() && gs[w].0@ == daemonset_key(dss[i], g);
        assert(gs2[w].0@ == daemonset_key(dss[i], g));
    }
    assert forall|i: int| 0 <= i < cms.len() implies has_group(
        gs2,
        #[trigger] configmap_key(cms[i], g),
    ) by {
        let w = choose|w: int| 0 <= w < gs.len() && gs[w].0@ == configmap_key(cms[i], g);
        assert(gs2[w].0@ == configmap_key(cms[i], g));
    }
    assert forall|i: int| 0 <= i < secs.push(rec).len() implies has_group(
        gs2,
        #[trigger] secret_key(secs.push(rec)[i], g),
    ) by {
        if i < secs.len() {
            assert(secs.push(rec)[i] == secs[i]);
            let w = choose|w: int| 0 <= w < gs.len() && gs[w].0@ == secret_key(secs[i], g);
            assert(gs2[w].0@ == secret_key(secs[i], g));
        } else {
            assert(secs.push(rec)[i] == rec);
            assert(gs2[gs.len() as int].0@ == secret_key(rec, g));
        }
    }
    assert forall|i: int| 0 <= i < gs2.len() implies some_record_keyed(
        #[trigger] gs2[i].0@,
        svcs, pds, deps, stss, dss, cms, secs.push(rec),
        g,
    ) by {
        if i < gs.len() {
            assert(gs2[i].0 == gs[i].0);
            assert(some_record_keyed(gs[i].0@, svcs, pds, deps, stss, dss, cms, secs, g));
            if exists|w: int| 0 <= w < secs.len() && secret_key(secs[w], g) == gs[i].0@ {
                let w = choose|w: int| 0 <= w < secs.len() && secret_key(secs[w], g)
                    == gs[i].0@;
                assert(secs.push(rec)[w] == secs[w]);
                assert(secret_key(secs.push(rec)[w], g) == gs2[i].0@);
            }
        } else {
            assert(gs2[i].0@ == key);
            assert(secret_key(secs.push(rec)[secs.len() as int], g) == key);
        }
    }
    lemma_sum_push(gs, p);
}


fn service_key_exec(rec: &ServiceInfo, g: &GroupBy) -> (r: String)
    requires
        rec.selector matches Some(m) ==> m.wf(),
    ensures
        r@ == service_key(*rec, *g),
{
    match g {
        GroupBy::Namespace => rec.namespace.clone(),
        GroupBy::NoGrouping => "all".to_owned(),
        _ => {
            let tag = group_tag_string(g);
            match &rec.selector {
                Some(m) => label_key_of(m, tag.as_str()),
                None => "unknown".to_owned(),
            }
        },
    }
}

fn pod_key_exec(rec: &PodInfo, g: &GroupBy) -> (r: String)
    requires
        rec.labels.wf(),
    ensures
        r@ == pod_key(*rec, *g),
{
    match g {
        GroupBy::Namespace => rec.namespace.clone(),
        GroupBy::NoGrouping => "all".to_owned(),
        _ => {
            let tag = group_tag_string(g);
            label_key_of(&rec.labels, tag.as_str())
        },
    }
}

fn deployment_key_exec(rec: &DeploymentInfo, g: &GroupBy) -> (r: String)
    requires
        rec.labels.wf(),
    ensures
        r@ == deployment_key(*rec, *g),
{
    match g {
        GroupBy::Namespace => rec.namespace.clone(),
        GroupBy::NoGrouping => "all".to_owned(),
        _ => {
            let tag = group_tag_string(g);
            label_key_of(&rec.labels, tag.as_str())
        },
    }
}

fn statefulset_key_exec(rec: &StatefulSetInfo, g: &GroupBy) -> (r: String)
    requires
        rec.labels.wf(),
    ensures
        r@ == statefulset_key(*rec, *g),
{
    match g {
        GroupBy::Namespace => rec.namespace.clone(),
        GroupBy::NoGrouping => "all".to_owned(),
        _ => {
            let tag = group_tag_string(g);
            label_key_of(&rec.labels, tag.as_str())
        },
    }
}

fn daemonset_key_exec(rec: &DaemonSetInfo, g: &GroupBy) -> (r: String)
    requires
        rec.labels.wf(),
    ensures
        r@ == daemonset_key(*rec, *g),
{
    match g {
        GroupBy::Namespace => rec.namespace.clone(),
        GroupBy::NoGrouping => "all".to_owned(),
        _ => {
            let tag = group_tag_string(g);
            label_key_of(&rec.labels, tag.as_str())
        },
    }
}

fn configmap_key_exec(rec: &ConfigMapInfo, g: &GroupBy) -> (r: String)
    requires
        rec.labels.wf(),
    ensures
        r@ == configmap_key(*rec, *g),
{
    match g {
        GroupBy::Namespace => rec.namespace.clone(),
        GroupBy::NoGrouping => "all".to_owned(),
        _ => {
            let tag = group_tag_string(g);
            label_key_of(&rec.labels, tag.as_str())
        },
    }
}

fn secret_key_exec(rec: &SecretInfo, g: &GroupBy) -> (r: String)
    requires
        rec.labels.wf(),
    ensures
        r@ == secret_key(*rec, *g),
{
    match g {
        GroupBy::Namespace => rec.namespace.clone(),
        GroupBy::NoGrouping => "all".to_owned(),
        _ => {
            let tag = group_tag_string(g);
            label_key_of(&rec.labels, tag.as_str())
        },
    }
}

/// Grouping passes over resource collections.
pub struct ResourceGrouper;

impl ResourceGrouper {
    /// Partitions the five workload collections into buckets by the
    /// chosen key; under the catch-all mode every record lands in the one
    /// `all` bucket named `All Resources`.
    pub fn group_resources(
        services: Vec<ServiceInfo>,
        pods: Vec<PodInfo>,
        deployments: Vec<DeploymentInfo>,
        statefulsets: Vec<StatefulSetInfo>,
        daemonsets: Vec<DaemonSetInfo>,
        group_by: &GroupBy,
    ) -> (r: GroupedResources)
        requires
            forall|i: int|
                0 <= i < services@.len() ==> (((#[trigger] services@[i]).selector) matches Some(m)
                    ==> m.wf()),
        forall|i: int| 0 <= i < pods@.len() ==> (#[trigger] pods@[i]).labels.wf(),
        forall|i: int| 0 <= i < deployments@.len() ==> (#[trigger] deployments@[i]).labels.wf(),
        forall|i: int| 0 <= i < statefulsets@.len() ==> (#[trigger] statefulsets@[i]).labels.wf(),
        forall|i: int| 0 <= i < daemonsets@.len() ==> (#[trigger] daemonsets@[i]).labels.wf(),
        ensures
            r.wf(),
            buckets_ok(
                r.groups@,
                services@,
                pods@,
                deployments@,
                statefulsets@,
                daemonsets@,
                Seq::empty(),
                Seq::empty(),
                *group_by,
            ),
            match *group_by {
                GroupBy::NoGrouping => r.groups@[0].1.name@ == "All Resources"@,
                _ => forall|i: int|
                    0 <= i < r.groups@.len() ==> (#[trigger] r.groups@[i].1).name@
                        == r.groups@[i].0@,
            },
    {
        let ghost gb = *group_by;
        let ghost g_services = services@;
        let ghost g_pods = pods@;
        let ghost g_deployments = deployments@;
        let ghost g_statefulsets = statefulsets@;
        let ghost g_daemonsets = daemonsets@;
        let mut groups: Vec<(String, ResourceGroup)> = Vec::new();
        match group_by {
            GroupBy::NoGrouping => {
                let mut grp = ResourceGroup::new("All Resources".to_owned(), "none".to_owned());
                grp.services = services;
                grp.pods = pods;
                grp.deployments = deployments;
                grp.statefulsets = statefulsets;
                grp.daemonsets = daemonsets;
                groups.push(("all".to_owned(), grp));
                proof {
                    let p = groups@[0];
                    assert(p.0@ == "all"@);
                    assert(groups@.drop_last() =~= Seq::<(String, ResourceGroup)>::empty());
                    assert(sum_groups(Seq::<(String, ResourceGroup)>::empty()) == 0);
                    assert(sum_groups(groups@) == p.1.total());
                    assert forall|i: int| 0 <= i < groups@.len() implies bucket_ok(
                        #[trigger] groups@[i].0@,
                        groups@[i].1,
                        g_services,
                        g_pods,
                        g_deployments,
                        g_statefulsets,
                        g_daemonsets,
                        Seq::empty(),
                        Seq::empty(),
                        gb,
                    ) by {
                        let ki = groups@[i].0@;
                        assert(ki == "all"@);
                        assert(gb is NoGrouping);
                        let pred_s = |q: ServiceInfo| service_key(q, gb) == ki;
                        let pred_p = |q: PodInfo| pod_key(q, gb) == ki;
                        let pred_d = |q: DeploymentInfo| deployment_key(q, gb) == ki;
                        let pred_ss = |q: StatefulSetInfo| statefulset_key(q, gb) == ki;
                        let pred_ds = |q: DaemonSetInfo| daemonset_key(q, gb) == ki;
                        let pred_cm = |q: ConfigMapInfo| configmap_key(q, gb) == ki;
                        let pred_sec = |q: SecretInfo| secret_key(q, gb) == ki;
                        assert forall|w: int| 0 <= w < g_services.len() implies pred_s(
                            #[trigger] g_services[w],
                        ) by {
                            assert(service_key(g_services[w], gb) == "all"@);
                        }
                        assert forall|w: int| 0 <= w < g_pods.len() implies pred_p(
                            #[trigger] g_pods[w],
                        ) by {
                            assert(pod_key(g_pods[w], gb) == "all"@);
                        }
                        assert forall|w: int| 0 <= w < g_deployments.len() implies pred_d(
                            #[trigger] g_deployments[w],
                        ) by {
                            assert(deployment_key(g_deployments[w], gb) == "all"@);
                        }
                        assert forall|w: int| 0 <= w < g_statefulsets.len() implies pred_ss(
                            #[trigger] g_statefulsets[w],
                        ) by {
                            assert(statefulset_key(g_statefulsets[w], gb) == "all"@);
                        }
                        assert forall|w: int| 0 <= w < g_daemonsets.len() implies pred_ds(
                            #[trigger] g_daemonsets[w],
                        ) by {
                            assert(daemonset_key(g_daemonsets[w], gb) == "all"@);
                        }
                        lemma_filter_all(g_services, pred_s);
                        lemma_filter_all(g_pods, pred_p);
                        lemma_filter_all(g_deployments, pred_d);
                        lemma_filter_all(g_statefulsets, pred_ss);
                        lemma_filter_all(g_daemonsets, pred_ds);
                        lemma_filter_empty(Seq::<ConfigMapInfo>::empty(), pred_cm);
                        lemma_filter_empty(Seq::<SecretInfo>::empty(), pred_sec);
                        assert(groups@[i].1.services@ == g_services.filter(pred_s));
                        assert(groups@[i].1.pods@ == g_pods.filter(pred_p));
                        assert(groups@[i].1.deployments@ == g_deployments.filter(pred_d));
                        assert(groups@[i].1.statefulsets@ == g_statefulsets.filter(pred_ss));
                        assert(groups@[i].1.daemonsets@ == g_daemonsets.filter(pred_ds));
                        assert(groups@[i].1.configmaps@ == Seq::<ConfigMapInfo>::empty().filter(
                            pred_cm,
                        ));
                        assert(groups@[i].1.secrets@ == Seq::<SecretInfo>::empty().filter(
                            pred_sec,
                        ));
                        assert(groups@[i].1.group_type@ == group_tag(gb));
                        assert(groups@[i].1.metadata@ == pass_metadata(gb));
                    }
                }
                return GroupedResources { groups };
            },
            _ => {},
        }
        proof {
            assert(Seq::<ServiceInfo>::empty().take(0) =~= Seq::<ServiceInfo>::empty());
        }

        let mut input = services;
        proof {
            assert(g_services.take(0) =~= Seq::<ServiceInfo>::empty());
        }
        while input.len() > 0
            invariant
                input@.len() <= g_services.len(),
                input@ =~= g_services.skip(g_services.len() - input@.len()),
                gb == *group_by,
                !(gb is NoGrouping),
                forall|i: int|
                0 <= i < g_services.len() ==> (((#[trigger] g_services[i]).selector) matches Some(m)
                    ==> m.wf()),
                forall|i: int| 0 <= i < g_pods.len() ==> (#[trigger] g_pods[i]).labels.wf(),
                forall|i: int| 0 <= i < g_deployments.len() ==> (#[trigger] g_deployments[i]).labels.wf(),
                forall|i: int| 0 <= i < g_statefulsets.len() ==> (#[trigger] g_statefulsets[i]).labels.wf(),
                forall|i: int| 0 <= i < g_daemonsets.len() ==> (#[trigger] g_daemonsets[i]).labels.wf(),
                buckets_ok(groups@, g_services.take(g_services.len() - input@.len()), Seq::empty(), Seq::empty(), Seq::empty(), Seq::empty(), Seq::empty(), Seq::empty(), gb),
                forall|i: int|
                    0 <= i < groups@.len() ==> (#[trigger] groups@[i].1).name@ == groups@[i].0@,
            decreases input@.len(),
        {
            let ghost k = g_services.len() - input@.len();
            let ghost pre_input = input@;
            proof {
                assert(0 <= k < g_services.len());
                assert(pre_input[0] == g_services.skip(k)[0]);
                assert(g_services.skip(k)[0] == g_services[k]);
            }
            let rec = input.remove(0);
            proof {
                assert(input@ == pre_input.remove(0));
                assert(input@ =~= g_services.skip(k + 1));
                assert(g_services.take(k + 1) =~= g_services.take(k).push(rec));
            }
            let key = service_key_exec(&rec, group_by);
            let ghost pre_groups = groups@;
            match bucket_index(&groups, key.as_str()) {
                Some(bi) => {
                    groups[bi].1.services.push(rec);
                    proof {
                        let p = groups@[bi as int];
                        assert(groups@ =~= pre_groups.update(bi as int, p));
                        lemma_step_service_update(pre_groups, p, bi as int, rec, g_services.take(k), Seq::empty(), Seq::empty(), Seq::empty(), Seq::empty(), Seq::empty(), Seq::empty(), gb);
                    }
                },
                None => {
                    let name = key.clone();
                    let tag = group_tag_string(group_by);
                    let mut grp = ResourceGroup::new(name, tag);
                    match group_by {
                        GroupBy::HelmRelease => {
                            grp.metadata.insert("managed-by".to_owned(), "Helm".to_owned());
                        },
                        _ => {},
                    }
                    grp.services.push(rec);
                    groups.push((key, grp));
                    proof {
                        let p = groups@.last();
                        assert(groups@ =~= pre_groups.push(p));
                        assert(p.1.services@ =~= seq![rec]);
                        assert(p.1.metadata@ == pass_metadata(gb));
                        lemma_step_service_new(pre_groups, p, rec, g_services.take(k), Seq::empty(), Seq::empty(), Seq::empty(), Seq::empty(), Seq::empty(), Seq::empty(), gb);
                        assert(p.1.name@ == p.0@);
                    }
                },
            }
        }
        proof {
            assert(g_services.take(g_services.len() as int) =~= g_services);
        }

        let mut input = pods;
        proof {
            assert(g_pods.take(0) =~= Seq::<PodInfo>::empty());
        }
        while input.len() > 0
            invariant
                input@.len() <= g_pods.len(),
                input@ =~= g_pods.skip(g_pods.len() - input@.len()),
                gb == *group_by,
                !(gb is NoGrouping),
                forall|i: int|
                0 <= i < g_services.len() ==> (((#[trigger] g_services[i]).selector) matches Some(m)
                    ==> m.wf()),
                forall|i: int| 0 <= i < g_pods.len() ==> (#[trigger] g_pods[i]).labels.wf(),
                forall|i: int| 0 <= i < g_deployments.len() ==> (#[trigger] g_deployments[i]).labels.wf(),
                forall|i: int| 0 <= i < g_statefulsets.len() ==> (#[trigger] g_statefulsets[i]).labels.wf(),
                forall|i: int| 0 <= i < g_daemonsets.len() ==> (#[trigger] g_daemonsets[i]).labels.wf(),
                buckets_ok(groups@, g_services, g_pods.take(g_pods.len() - input@.len()), Seq::empty(), Seq::empty(), Seq::empty(), Seq::empty(), Seq::empty(), gb),
                forall|i: int|
                    0 <= i < groups@.len() ==> (#[trigger] groups@[i].1).name@ == groups@[i].0@,
            decreases input@.len(),
        {
            let ghost k = g_pods.len() - input@.len();
            let ghost pre_input = input@;
            proof {
                assert(0 <= k < g_pods.len());
                assert(pre_input[0] == g_pods.skip(k)[0]);
                assert(g_pods.skip(k)[0] == g_pods[k]);
            }
            let rec = input.remove(0);
            proof {
                assert(input@ == pre_input.remove(0));
                assert(input@ =~= g_pods.skip(k + 1));
                assert(g_pods.take(k + 1) =~= g_pods.take(k).push(rec));
            }
            let key = pod_key_exec(&rec, group_by);
            let ghost pre_groups = groups@;
            match bucket_index(&groups, key.as_str()) {
                Some(bi) => {
                    groups[bi].1.pods.push(rec);
                    proof {
                        let p = groups@[bi as int];
                        assert(groups@ =~= pre_groups.update(bi as int, p));
                        lemma_step_pod_update(pre_groups, p, bi as int, rec, g_services, g_pods.take(k), Seq::empty(), Seq::empty(), Seq::empty(), Seq::empty(), Seq::empty(), gb);
                    }
                },
                None => {
                    let name = key.clone();
                    let tag = group_tag_string(group_by);
                    let mut grp = ResourceGroup::new(name, tag);
                    match group_by {
                        GroupBy::HelmRelease => {
                            grp.metadata.insert("managed-by".to_owned(), "Helm".to_owned());
                        },
                        _ => {},
                    }
                    grp.pods.push(rec);
                    groups.push((key, grp));
                    proof {
                        let p = groups@.last();
                        assert(groups@ =~= pre_groups.push(p));
                        assert(p.1.pods@ =~= seq![rec]);
                        assert(p.1.metadata@ == pass_metadata(gb));
                        lemma_step_pod_new(pre_groups, p, rec, g_services, g_pods.take(k), Seq::empty(), Seq::empty(), Seq::empty(), Seq::empty(), Seq::empty(), gb);
                        assert(p.1.name@ == p.0@);
                    }
                },
            }
        }
        proof {
            assert(g_pods.take(g_pods.len() as int) =~= g_pods);
        }

        let mut input = deployments;
        proof {
            assert(g_deployments.take(0) =~= Seq::<DeploymentInfo>::empty());
        }
        while input.len() > 0
            invariant
                input@.len() <= g_deployments.len(),
                input@ =~= g_deployments.skip(g_deployments.len() - input@.len()),
                gb == *group_by,
                !(gb is NoGrouping),
                forall|i: int|
                0 <= i < g_services.len() ==> (((#[trigger] g_services[i]).selector) matches Some(m)
                    ==> m.wf()),
                forall|i: int| 0 <= i < g_pods.len() ==> (#[trigger] g_pods[i]).labels.wf(),
                forall|i: int| 0 <= i < g_deployments.len() ==> (#[trigger] g_deployments[i]).labels.wf(),
                forall|i: int| 0 <= i < g_statefulsets.len() ==> (#[trigger] g_statefulsets[i]).labels.wf(),
                forall|i: int| 0 <= i < g_daemonsets.len() ==> (#[trigger] g_daemonsets[i]).labels.wf(),
                buckets_ok(groups@, g_services, g_pods, g_deployments.take(g_deployments.len() - input@.len()), Seq::empty(), Seq::empty(), Seq::empty(), Seq::empty(), gb),
                forall|i: int|
                    0 <= i < groups@.len() ==> (#[trigger] groups@[i].1).name@ == groups@[i].0@,
            decreases input@.len(),
        {
            let ghost k = g_deployments.len() - input@.len();
            let ghost pre_input = input@;
            proof {
                assert(0 <= k < g_deployments.len());
                assert(pre_input[0] == g_deployments.skip(k)[0]);
                assert(g_deployments.skip(k)[0] == g_deployments[k]);
            }
            let rec = input.remove(0);
            proof {
                assert(input@ == pre_input.remove(0));
                assert(input@ =~= g_deployments.skip(k + 1));
                assert(g_deployments.take(k + 1) =~= g_deployments.take(k).push(rec));
            }
            let key = deployment_key_exec(&rec, group_by);
            let ghost pre_groups = groups@;
            match bucket_index(&groups, key.as_str()) {
                Some(bi) => {
                    groups[bi].1.deployments.push(rec);
                    proof {
                        let p = groups@[bi as int];
                        assert(groups@ =~= pre_groups.update(bi as int, p));
                        lemma_step_deployment_update(pre_groups, p, bi as int, rec, g_services, g_pods, g_deployments.take(k), Seq::empty(), Seq::empty(), Seq::empty(), Seq::empty(), gb);
                    }
                },
                None => {
                    let name = key.clone();
                    let tag = group_tag_string(group_by);
                    let mut grp = ResourceGroup::new(name, tag);
                    match group_by {
                        GroupBy::HelmRelease => {
                            grp.metadata.insert("managed-by".to_owned(), "Helm".to_owned());
                        },
                        _ => {},
                    }
                    grp.deployments.push(rec);
                    groups.push((key, grp));
                    proof {
                        let p = groups@.last();
                        assert(groups@ =~= pre_groups.push(p));
                        assert(p.1.deployments@ =~= seq![rec]);
                        assert(p.1.metadata@ == pass_metadata(gb));
                        lemma_step_deployment_new(pre_groups, p, rec, g_services, g_pods, g_deployments.take(k), Seq::empty(), Seq::empty(), Seq::empty(), Seq::empty(), gb);
                        assert(p.1.name@ == p.0@);
                    }
                },
            }
        }
        proof {
            assert(g_deployments.take(g_deployments.len() as int) =~= g_deployments);
        }

        let mut input = statefulsets;
        proof {
            assert(g_statefulsets.take(0) =~= Seq::<StatefulSetInfo>::empty());
        }
        while input.len() > 0
            invariant
                input@.len() <= g_statefulsets.len(),
                input@ =~= g_statefulsets.skip(g_statefulsets.len() - input@.len()),
                gb == *group_by,
                !(gb is NoGrouping),
                forall|i: int|
                0 <= i < g_services.len() ==> (((#[trigger] g_services[i]).selector) matches Some(m)
                    ==> m.wf()),
                forall|i: int| 0 <= i < g_pods.len() ==> (#[trigger] g_pods[i]).labels.wf(),
                forall|i: int| 0 <= i < g_deployments.len() ==> (#[trigger] g_deployments[i]).labels.wf(),
                forall|i: int| 0 <= i < g_statefulsets.len() ==> (#[trigger] g_statefulsets[i]).labels.wf(),
                forall|i: int| 0 <= i < g_daemonsets.len() ==> (#[trigger] g_daemonsets[i]).labels.wf(),
                buckets_ok(groups@, g_services, g_pods, g_deployments, g_statefulsets.take(g_statefulsets.len() - input@.len()), Seq::empty(), Seq::empty(), Seq::empty(), gb),
                forall|i: int|
                    0 <= i < groups@.len() ==> (#[trigger] groups@[i].1).name@ == groups@[i].0@,
            decreases input@.len(),
        {
            let ghost k = g_statefulsets.len() - input@.len();
            let ghost pre_input = input@;
            proof {
                assert(0 <= k < g_statefulsets.len());
                assert(pre_input[0] == g_statefulsets.skip(k)[0]);
                assert(g_statefulsets.skip(k)[0] == g_statefulsets[k]);
            }
            let rec = input.remove(0);
            proof {
                assert(input@ == pre_input.remove(0));
                assert(input@ =~= g_statefulsets.skip(k + 1));
                assert(g_statefulsets.take(k + 1) =~= g_statefulsets.take(k).push(rec));
            }
            let key = statefulset_key_exec(&rec, group_by);
            let ghost pre_groups = groups@;
            match bucket_index(&groups, key.as_str()) {
                Some(bi) => {
                    groups[bi].1.statefulsets.push(rec);
                    proof {
                        let p = groups@[bi as int];
                        assert(groups@ =~= pre_groups.update(bi as int, p));
                        lemma_step_statefulset_update(pre_groups, p, bi as int, rec, g_services, g_pods, g_deployments, g_statefulsets.take(k), Seq::empty(), Seq::empty(), Seq::empty(), gb);
                    }
                },
                None => {
                    let name = key.clone();
                    let tag = group_tag_string(group_by);
                    let mut grp = ResourceGroup::new(name, tag);
                    match group_by {
                        GroupBy::HelmRelease => {
                            grp.metadata.insert("managed-by".to_owned(), "Helm".to_owned());
                        },
                        _ => {},
                    }
                    grp.statefulsets.push(rec);
                    groups.push((key, grp));
                    proof {
                        let p = groups@.last();
                        assert(groups@ =~= pre_groups.push(p));
                        assert(p.1.statefulsets@ =~= seq![rec]);
                        assert(p.1.metadata@ == pass_metadata(gb));
                        lemma_step_statefulset_new(pre_groups, p, rec, g_services, g_pods, g_deployments, g_statefulsets.take(k), Seq::empty(), Seq::empty(), Seq::empty(), gb);
                        assert(p.1.name@ == p.0@);
                    }
                },
            }
        }
        proof {
            assert(g_statefulsets.take(g_statefulsets.len() as int) =~= g_statefulsets);
        }

        let mut input = daemonsets;
        proof {
            assert(g_daemonsets.take(0) =~= Seq::<DaemonSetInfo>::empty());
        }
        while input.len() > 0
            invariant
                input@.len() <= g_daemonsets.len(),
                input@ =~= g_daemonsets.skip(g_daemonsets.len() - input@.len()),
                gb == *group_by,
                !(gb is NoGrouping),
                forall|i: int|
                0 <= i < g_services.len() ==> (((#[trigger] g_services[i]).selector) matches Some(m)
                    ==> m.wf()),
                forall|i: int| 0 <= i < g_pods.len() ==> (#[trigger] g_pods[i]).labels.wf(),
                forall|i: int| 0 <= i < g_deployments.len() ==> (#[trigger] g_deployments[i]).labels.wf(),
                forall|i: int| 0 <= i < g_statefulsets.len() ==> (#[trigger] g_statefulsets[i]).labels.wf(),
                forall|i: int| 0 <= i < g_daemonsets.len() ==> (#[trigger] g_daemonsets[i]).labels.wf(),
                buckets_ok(groups@, g_services, g_pods, g_deployments, g_statefulsets, g_daemonsets.take(g_daemonsets.len() - input@.len()), Seq::empty(), Seq::empty(), gb),
                forall|i: int|
                    0 <= i < groups@.len() ==> (#[trigger] groups@[i].1).name@ == groups@[i].0@,
            decreases input@.len(),
        {
            let ghost k = g_daemonsets.len() - input@.len();
            let ghost pre_input = input@;
            proof {
                assert(0 <= k < g_daemonsets.len());
                assert(pre_input[0] == g_daemonsets.skip(k)[0]);
                assert(g_daemonsets.skip(k)[0] == g_daemonsets[k]);
            }
            let rec = input.remove(0);
            proof {
                assert(input@ == pre_input.remove(0));
                assert(input@ =~= g_daemonsets.skip(k + 1));
                assert(g_daemonsets.take(k + 1) =~= g_daemonsets.take(k).push(rec));
            }
            let key = daemonset_key_exec(&rec, group_by);
            let ghost pre_groups = groups@;
            match bucket_index(&groups, key.as_str()) {
                Some(bi) => {
                    groups[bi].1.daemonsets.push(rec);
                    proof {
                        let p = groups@[bi as int];
                        assert(groups@ =~= pre_groups.update(bi as int, p));
                        lemma_step_daemonset_update(pre_groups, p, bi as int, rec, g_services, g_pods, g_deployments, g_statefulsets, g_daemonsets.take(k), Seq::empty(), Seq::empty(), gb);
                    }
                },
                None => {
                    let name = key.clone();
                    let tag = group_tag_string(group_by);
                    let mut grp = ResourceGroup::new(name, tag);
                    match group_by {
                        GroupBy::HelmRelease => {
                            grp.metadata.insert("managed-by".to_owned(), "Helm".to_owned());
                        },
                        _ => {},
                    }
                    grp.daemonsets.push(rec);
                    groups.push((key, grp));
                    proof {
                        let p = groups@.last();
                        assert(groups@ =~= pre_groups.push(p));
                        assert(p.1.daemonsets@ =~= seq![rec]);
                        assert(p.1.metadata@ == pass_metadata(gb));
                        lemma_step_daemonset_new(pre_groups, p, rec, g_services, g_pods, g_deployments, g_statefulsets, g_daemonsets.take(k), Seq::empty(), Seq::empty(), gb);
                        assert(p.1.name@ == p.0@);
                    }
                },
            }
        }
        proof {
            assert(g_daemonsets.take(g_daemonsets.len() as int) =~= g_daemonsets);
        }

        GroupedResources { groups }
    }

    /// Partitions configmaps into buckets by the chosen key; under the
    /// catch-all mode every record lands in the one `all` bucket named
    /// `All ConfigMaps`.
    pub fn group_configmaps(configmaps: Vec<ConfigMapInfo>, group_by: &GroupBy) -> (r: GroupedResources)
        requires
            forall|i: int| 0 <= i < configmaps@.len() ==> (#[trigger] configmaps@[i]).labels.wf(),
        ensures
            r.wf(),
            buckets_ok(
                r.groups@,
                Seq::empty(), Seq::empty(), Seq::empty(), Seq::empty(), Seq::empty(), configmaps@, Seq::empty(),
                *group_by,
            ),
            match *group_by {
                GroupBy::NoGrouping => r.groups@[0].1.name@ == "All ConfigMaps"@,
                _ => forall|i: int|
                    0 <= i < r.groups@.len() ==> (#[trigger] r.groups@[i].1).name@
                        == r.groups@[i].0@,
            },
    {
        let ghost gb = *group_by;
        let ghost g_records = configmaps@;
        let mut groups: Vec<(String, ResourceGroup)> = Vec::new();
        match group_by {
            GroupBy::NoGrouping => {
                let mut grp = ResourceGroup::new("All ConfigMaps".to_owned(), "none".to_owned());
                grp.configmaps = configmaps;
                groups.push(("all".to_owned(), grp));
                proof {
                    let p = groups@[0];
                    assert(p.0@ == "all"@);
                    assert(groups@.drop_last() =~= Seq::<(String, ResourceGroup)>::empty());
                    assert(sum_groups(Seq::<(String, ResourceGroup)>::empty()) == 0);
                    assert(sum_groups(groups@) == p.1.total());
                    assert forall|i: int| 0 <= i < groups@.len() implies bucket_ok(
                        #[trigger] groups@[i].0@,
                        groups@[i].1,
                        Seq::empty(), Seq::empty(), Seq::empty(), Seq::empty(), Seq::empty(), g_records, Seq::empty(),
                        gb,
                    ) by {
                        let ki = groups@[i].0@;
                        assert(ki == "all"@);
                        assert(gb is NoGrouping);
                        let pred_s = |q: ServiceInfo| service_key(q, gb) == ki;
                        let pred_p = |q: PodInfo| pod_key(q, gb) == ki;
                        let pred_d = |q: DeploymentInfo| deployment_key(q, gb) == ki;
                        let pred_ss = |q: StatefulSetInfo| statefulset_key(q, gb) == ki;
                        let pred_ds = |q: DaemonSetInfo| daemonset_key(q, gb) == ki;
                        let pred_cm = |q: ConfigMapInfo| configmap_key(q, gb) == ki;
                        let pred_sec = |q: SecretInfo| secret_key(q, gb) == ki;
                        lemma_filter_empty(Seq::<ServiceInfo>::empty(), pred_s);
                        lemma_filter_empty(Seq::<PodInfo>::empty(), pred_p);
                        lemma_filter_empty(Seq::<DeploymentInfo>::empty(), pred_d);
                        lemma_filter_empty(Seq::<StatefulSetInfo>::empty(), pred_ss);
                        lemma_filter_empty(Seq::<DaemonSetInfo>::empty(), pred_ds);
                        assert forall|w: int| 0 <= w < g_records.len() implies pred_cm(
                            #[trigger] g_records[w],
                        ) by {
                            assert(configmap_key(g_records[w], gb) == "all"@);
                        }
                        lemma_filter_all(g_records, pred_cm);
                        lemma_filter_empty(Seq::<SecretInfo>::empty(), pred_sec);
                        assert(groups@[i].1.services@ == Seq::<ServiceInfo>::empty().filter(pred_s));
                        assert(groups@[i].1.pods@ == Seq::<PodInfo>::empty().filter(pred_p));
                        assert(groups@[i].1.deployments@ == Seq::<DeploymentInfo>::empty().filter(pred_d));
                        assert(groups@[i].1.statefulsets@ == Seq::<StatefulSetInfo>::empty().filter(pred_ss));
                        assert(groups@[i].1.daemonsets@ == Seq::<DaemonSetInfo>::empty().filter(pred_ds));
                        assert(groups@[i].1.configmaps@ == g_records.filter(pred_cm));
                        assert(groups@[i].1.secrets@ == Seq::<SecretInfo>::empty().filter(pred_sec));
                        assert(groups@[i].1.group_type@ == group_tag(gb));
                        assert(groups@[i].1.metadata@ == pass_metadata(gb));
                    }
                }
                return GroupedResources { groups };
            },
            _ => {},
        }
        let mut input = configmaps;
        proof {
            assert(g_records.take(0) =~= Seq::<ConfigMapInfo>::empty());
        }
        while input.len() > 0
            invariant
                input@.len() <= g_records.len(),
                input@ =~= g_records.skip(g_records.len() - input@.len()),
                gb == *group_by,
                !(gb is NoGrouping),
                forall|i: int| 0 <= i < g_records.len() ==> (#[trigger] g_records[i]).labels.wf(),
                buckets_ok(
                    groups@,
                    Seq::empty(), Seq::empty(), Seq::empty(), Seq::empty(), Seq::empty(), g_records.take(g_records.len() - input@.len()), Seq::empty(),
                    gb,
                ),
                forall|i: int|
                    0 <= i < groups@.len() ==> (#[trigger] groups@[i].1).name@ == groups@[i].0@,
            decreases input@.len(),
        {
            let ghost k = g_records.len() - input@.len();
            let ghost pre_input = input@;
            proof {
                assert(0 <= k < g_records.len());
                assert(pre_input[0] == g_records.skip(k)[0]);
                assert(g_records.skip(k)[0] == g_records[k]);
            }
            let rec = input.remove(0);
            proof {
                assert(input@ == pre_input.remove(0));
                assert(input@ =~= g_records.skip(k + 1));
                assert(g_records.take(k + 1) =~= g_records.take(k).push(rec));
            }
            let key = configmap_key_exec(&rec, group_by);
            let ghost pre_groups = groups@;
            match bucket_index(&groups, key.as_str()) {
                Some(bi) => {
                    groups[bi].1.configmaps.push(rec);
                    proof {
                        let p = groups@[bi as int];
                        assert(groups@ =~= pre_groups.update(bi as int, p));
                        lemma_step_configmap_update(
                            pre_groups,
                            p,
                            bi as int,
                            rec,
                            Seq::empty(), Seq::empty(), Seq::empty(), Seq::empty(), Seq::empty(), g_records.take(k), Seq::empty(),
                            gb,
                        );
                    }
                },
                None => {
                    let name = key.clone();
                    let tag = group_tag_string(group_by);
                    let mut grp = ResourceGroup::new(name, tag);
                    match group_by {
                        GroupBy::HelmRelease => {
                            grp.metadata.insert("managed-by".to_owned(), "Helm".to_owned());
                        },
                        _ => {},
                    }
                    grp.configmaps.push(rec);
                    groups.push((key, grp));
                    proof {
                        let p = groups@.last();
                        assert(groups@ =~= pre_groups.push(p));
                        assert(p.1.configmaps@ =~= seq![rec]);
                        assert(p.1.metadata@ == pass_metadata(gb));
                        lemma_step_configmap_new(
                            pre_groups,
                            p,
                            rec,
                            Seq::empty(), Seq::empty(), Seq::empty(), Seq::empty(), Seq::empty(), g_records.take(k), Seq::empty(),
                            gb,
                        );
                        assert(p.1.name@ == p.0@);
                    }
                },
            }
        }
        proof {
            assert(g_records.take(g_records.len() as int) =~= g_records);
        }
        GroupedResources { groups }
    }

    /// Partitions secrets into buckets by the chosen key; under the
    /// catch-all mode every record lands in the one `all` bucket named
    /// `All Secrets`.
    pub fn group_secrets(secrets: Vec<SecretInfo>, group_by: &GroupBy) -> (r: GroupedResources)
        requires
            forall|i: int| 0 <= i < secrets@.len() ==> (#[trigger] secrets@[i]).labels.wf(),
        ensures
            r.wf(),
            buckets_ok(
                r.groups@,
                Seq::empty(), Seq::empty(), Seq::empty(), Seq::empty(), Seq::empty(), Seq::empty(), secrets@,
                *group_by,
            ),
            match *group_by {
                GroupBy::NoGrouping => r.groups@[0].1.name@ == "All Secrets"@,
                _ => forall|i: int|
                    0 <= i < r.groups@.len() ==> (#[trigger] r.groups@[i].1).name@
                        == r.groups@[i].0@,
            },
    {
        let ghost gb = *group_by;
        let ghost g_records = secrets@;
        let mut groups: Vec<(String, ResourceGroup)> = Vec::new();
        match group_by {
            GroupBy::NoGrouping => {
                let mut grp = ResourceGroup::new("All Secrets".to_owned(), "none".to_owned());
                grp.secrets = secrets;
                groups.push(("all".to_owned(), grp));
                proof {
                    let p = groups@[0];
                    assert(p.0@ == "all"@);
                    assert(groups@.drop_last() =~= Seq::<(String, ResourceGroup)>::empty());
                    assert(sum_groups(Seq::<(String, ResourceGroup)>::empty()) == 0);
                    assert(sum_groups(groups@) == p.1.total());
                    assert forall|i: int| 0 <= i < groups@.len() implies bucket_ok(
                        #[trigger] groups@[i].0@,
                        groups@[i].1,
                        Seq::empty(), Seq::empty(), Seq::empty(), Seq::empty(), Seq::empty(), Seq::empty(), g_records,
                        gb,
                    ) by {
                        let ki = groups@[i].0@;
                        assert(ki == "all"@);
                        assert(gb is NoGrouping);
                        let pred_s = |q: ServiceInfo| service_key(q, gb) == ki;
                        let pred_p = |q: PodInfo| pod_key(q, gb) == ki;
                        let pred_d = |q: DeploymentInfo| deployment_key(q, gb) == ki;
                        let pred_ss = |q: StatefulSetInfo| statefulset_key(q, gb) == ki;
                        let pred_ds = |q: DaemonSetInfo| daemonset_key(q, gb) == ki;
                        let pred_cm = |q: ConfigMapInfo| configmap_key(q, gb) == ki;
                        let pred_sec = |q: SecretInfo| secret_key(q, gb) == ki;
                        lemma_filter_empty(Seq::<ServiceInfo>::empty(), pred_s);
                        lemma_filter_empty(Seq::<PodInfo>::empty(), pred_p);
                        lemma_filter_empty(Seq::<DeploymentInfo>::empty(), pred_d);
                        lemma_filter_empty(Seq::<StatefulSetInfo>::empty(), pred_ss);
                        lemma_filter_empty(Seq::<DaemonSetInfo>::empty(), pred_ds);
                        lemma_filter_empty(Seq::<ConfigMapInfo>::empty(), pred_cm);
                        assert forall|w: int| 0 <= w < g_records.len() implies pred_sec(
                            #[trigger] g_records[w],
                        ) by {
                            assert(secret_key(g_records[w], gb) == "all"@);
                        }
                        lemma_filter_all(g_records, pred_sec);
                        assert(groups@[i].1.services@ == Seq::<ServiceInfo>::empty().filter(pred_s));
                        assert(groups@[i].1.pods@ == Seq::<PodInfo>::empty().filter(pred_p));
                        assert(groups@[i].1.deployments@ == Seq::<DeploymentInfo>::empty().filter(pred_d));
                        assert(groups@[i].1.statefulsets@ == Seq::<StatefulSetInfo>::empty().filter(pred_ss));
                        assert(groups@[i].1.daemonsets@ == Seq::<DaemonSetInfo>::empty().filter(pred_ds));
                        assert(groups@[i].1.configmaps@ == Seq::<ConfigMapInfo>::empty().filter(pred_cm));
                        assert(groups@[i].1.secrets@ == g_records.filter(pred_sec));
                        assert(groups@[i].1.group_type@ == group_tag(gb));
                        assert(groups@[i].1.metadata@ == pass_metadata(gb));
                    }
                }
                return GroupedResources { groups };
            },
            _ => {},
        }
        let mut input = secrets;
        proof {
            assert(g_records.take(0) =~= Seq::<SecretInfo>::empty());
        }
        while input.len() > 0
            invariant
                input@.len() <= g_records.len(),
                input@ =~= g_records.skip(g_records.len() - input@.len()),
                gb == *group_by,
                !(gb is NoGrouping),
                forall|i: int| 0 <= i < g_records.len() ==> (#[trigger] g_records[i]).labels.wf(),
                buckets_ok(
                    groups@,
                    Seq::empty(), Seq::empty(), Seq::empty(), Seq::empty(), Seq::empty(), Seq::empty(), g_records.take(g_records.len() - input@.len()),
                    gb,
                ),
                forall|i: int|
                    0 <= i < groups@.len() ==> (#[trigger] groups@[i].1).name@ == groups@[i].0@,
            decreases input@.len(),
        {
            let ghost k = g_records.len() - input@.len();
            let ghost pre_input = input@;
            proof {
                assert(0 <= k < g_records.len());
                assert(pre_input[0] == g_records.skip(k)[0]);
                assert(g_records.skip(k)[0] == g_records[k]);
            }
            let rec = input.remove(0);
            proof {
                assert(input@ == pre_input.remove(0));
                assert(input@ =~= g_records.skip(k + 1));
                assert(g_records.take(k + 1) =~= g_records.take(k).push(rec));
            }
            let key = secret_key_exec(&rec, group_by);
            let ghost pre_groups = groups@;
            match bucket_index(&groups, key.as_str()) {
                Some(bi) => {
                    groups[bi].1.secrets.push(rec);
                    proof {
                        let p = groups@[bi as int];
                        assert(groups@ =~= pre_groups.update(bi as int, p));
                        lemma_step_secret_update(
                            pre_groups,
                            p,
                            bi as int,
                            rec,
                            Seq::empty(), Seq::empty(), Seq::empty(), Seq::empty(), Seq::empty(), Seq::empty(), g_records.take(k),
                            gb,
                        );
                    }
                },
                None => {
                    let name = key.clone();
                    let tag = group_tag_string(group_by);
                    let mut grp = ResourceGroup::new(name, tag);
                    match group_by {
                        GroupBy::HelmRelease => {
                            grp.metadata.insert("managed-by".to_owned(), "Helm".to_owned());
                        },
                        _ => {},
                    }
                    grp.secrets.push(rec);
                    groups.push((key, grp));
                    proof {
                        let p = groups@.last();
                        assert(groups@ =~= pre_groups.push(p));
                        assert(p.1.secrets@ =~= seq![rec]);
                        assert(p.1.metadata@ == pass_metadata(gb));
                        lemma_step_secret_new(
                            pre_groups,
                            p,
                            rec,
                            Seq::empty(), Seq::empty(), Seq::empty(), Seq::empty(), Seq::empty(), Seq::empty(), g_records.take(k),
                            gb,
                        );
                        assert(p.1.name@ == p.0@);
                    }
                },
            }
        }
        proof {
            assert(g_records.take(g_records.len() as int) =~= g_records);
        }
        GroupedResources { groups }
    }
}


/// The grouping mode a free-text token names, compared after
/// lower-casing: the fixed tokens map to their modes, and any other token
/// groups by that token as a label key.
pub open spec fn token_group_by(token: Seq<char>, g: GroupBy) -> bool {
    if token == "app"@ {
        g is App
    } else if token == "tier"@ {
        g is Tier
    } else if token == "helm-release"@ || token == "helm"@ {
        g is HelmRelease
    } else if token == "namespace"@ || token == "ns"@ {
        g is Namespace
    } else if token == "none"@ {
        g is NoGrouping
    } else {
        g matches GroupBy::CustomLabel(k) && k@ == token
    }
}

/// The grouping mode a lower-case token names.
pub fn group_by_of_token(token: &str) -> (r: GroupBy)
    ensures
        token_group_by(token@, r),
{
    if str_eq(token, "app") {
        GroupBy::App
    } else if str_eq(token, "tier") {
        GroupBy::Tier
    } else if str_eq(token, "helm-release") || str_eq(token, "helm") {
        GroupBy::HelmRelease
    } else if str_eq(token, "namespace") || str_eq(token, "ns") {
        GroupBy::Namespace
    } else if str_eq(token, "none") {
        GroupBy::NoGrouping
    } else {
        GroupBy::CustomLabel(token.to_owned())
    }
}

/// What lower-casing a token yields.
pub uninterp spec fn lower_of(s: Seq<char>) -> Seq<char>;

/// Relies on str::to_lowercase: the result depends on the characters
/// alone.
#[verifier::external_body]
fn lowercase(s: &str) -> (r: String)
    ensures
        r@ == lower_of(s@),
{
    s.to_lowercase()
}

/// The grouping mode a free-text token names, case-insensitively.
pub fn parse_group_by(group_by_str: &str) -> (r: GroupBy)
    ensures
        token_group_by(lower_of(group_by_str@), r),
{
    let lowered = lowercase(group_by_str);
    group_by_of_token(lowered.as_str())
}

} // verus!
