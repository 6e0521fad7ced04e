//! Criteria-based filtering of resource collections: a label selector,
//! an optional status, and deferred age bounds, applied as a conjunction.

use vstd::prelude::*;
use crate::resources::{ConfigMapInfo, DeploymentInfo, PodInfo, SecretInfo, ServiceInfo};
use crate::selector::{parse_selector, selector_matches, LabelSelector};
use crate::text::str_eq;

verus! {

broadcast use vstd::seq_lib::group_filter_ensures, Seq::lemma_filter_push;

/// Criteria for narrowing a resource collection. The default matches
/// everything. The age bounds are carried for callers but not yet
/// evaluated: record timestamps are a deferred extension point. The ages
/// are in milliseconds.
#[derive(Debug, Clone)]
pub struct FilterCriteria {
    pub label_selector: Option<String>,
    pub status_filter: Option<String>,
    pub newer_than: Option<u64>,
    pub older_than: Option<u64>,
    pub include_types: Vec<String>,
    pub exclude_types: Vec<String>,
}

impl Default for FilterCriteria {
    /// The match-everything criteria.
    fn default() -> (r: Self)
        ensures
            r.label_selector is None,
            r.status_filter is None,
            r.newer_than is None,
            r.older_than is None,
            r.include_types@.len() == 0,
            r.exclude_types@.len() == 0,
    {
        FilterCriteria {
            label_selector: None,
            status_filter: None,
            newer_than: None,
            older_than: None,
            include_types: Vec::new(),
            exclude_types: Vec::new(),
        }
    }
}

/// The label-selector check of the criteria, against the mapping a record
/// exposes (its labels, or a service's selector). A record without a
/// mapping fails the check. A selector string that does not parse leaves
/// the check passing: the parse error is deliberately swallowed here, a
/// recorded open question of this design.
pub open spec fn selector_check(
    selector: Option<String>,
    labels: Option<Map<Seq<char>, Seq<char>>>,
) -> bool {
    match selector {
        None => true,
        Some(sel) => match parse_selector(sel@) {
            None => true,
            Some(exprs) => match labels {
                None => false,
                Some(m) => selector_matches(exprs, m),
            },
        },
    }
}

/// The derived status of a deployment, from its replica readiness.
pub open spec fn deployment_status(d: DeploymentInfo) -> Seq<char> {
    if d.ready_replicas == d.replicas {
        "Ready"@
    } else if d.ready_replicas == 0 {
        "NotReady"@
    } else {
        "PartiallyReady"@
    }
}

pub open spec fn service_matches(s: ServiceInfo, c: FilterCriteria) -> bool {
    selector_check(
        c.label_selector,
        match s.selector {
            Some(m) => Some(m@),
            None => None,
        },
    )
}

pub open spec fn deployment_matches(d: DeploymentInfo, c: FilterCriteria) -> bool {
    &&& selector_check(c.label_selector, Some(d.labels@))
    &&& match c.status_filter {
        None => true,
        Some(st) => deployment_status(d) == st@,
    }
}

pub open spec fn pod_matches(p: PodInfo, c: FilterCriteria) -> bool {
    &&& selector_check(c.label_selector, Some(p.labels@))
    &&& match c.status_filter {
        None => true,
        Some(st) => p.phase@ == st@,
    }
}

pub open spec fn configmap_matches(m: ConfigMapInfo, c: FilterCriteria) -> bool {
    selector_check(c.label_selector, Some(m.labels@))
}

pub open spec fn secret_matches(s: SecretInfo, c: FilterCriteria) -> bool {
    selector_check(c.label_selector, Some(s.labels@))
}

/// Resource filtering: one matching function and one collection filter
/// per resource kind, each keeping records in their original order.
pub struct ResourceFilter;

impl ResourceFilter {
    pub fn matches_criteria(service: &ServiceInfo, criteria: &FilterCriteria) -> (r: bool)
        requires
            service.selector matches Some(m) ==> m.wf(),
        ensures
            r == service_matches(*service, *criteria),
    {
        if let Some(sel_str) = &criteria.label_selector {
            if let Ok(sel) = LabelSelector::parse(sel_str.as_str()) {
                match &service.selector {
                    Some(labels) => {
                        if !sel.matches(labels) {
                            return false;
                        }
                    },
                    None => {
                        return false;
                    },
                }
            }
        }
        true
    }

    pub fn matches_deployment_criteria(deployment: &DeploymentInfo, criteria: &FilterCriteria) -> (r:
        bool)
        requires
            deployment.labels.wf(),
        ensures
            r == deployment_matches(*deployment, *criteria),
    {
        if let Some(sel_str) = &criteria.label_selector {
            if let Ok(sel) = LabelSelector::parse(sel_str.as_str()) {
                if !sel.matches(&deployment.labels) {
                    return false;
                }
            }
        }
        if let Some(status) = &criteria.status_filter {
            let derived: &str = if deployment.ready_replicas == deployment.replicas {
                "Ready"
            } else if deployment.ready_replicas == 0 {
                "NotReady"
            } else {
                "PartiallyReady"
            };
            if !str_eq(derived, status.as_str()) {
                return false;
            }
        }
        true
    }

    pub fn matches_pod_criteria(pod: &PodInfo, criteria: &FilterCriteria) -> (r: bool)
        requires
            pod.labels.wf(),
        ensures
            r == pod_matches(*pod, *criteria),
    {
        if let Some(sel_str) = &criteria.label_selector {
            if let Ok(sel) = LabelSelector::parse(sel_str.as_str()) {
                if !sel.matches(&pod.labels) {
                    return false;
                }
            }
        }
        if let Some(status) = &criteria.status_filter {
            if !str_eq(pod.phase.as_str(), status.as_str()) {
                return false;
            }
        }
        true
    }

    pub fn matches_configmap_criteria(configmap: &ConfigMapInfo, criteria: &FilterCriteria) -> (r:
        bool)
        requires
            configmap.labels.wf(),
        ensures
            r == configmap_matches(*configmap, *criteria),
    {
        if let Some(sel_str) = &criteria.label_selector {
            if let Ok(sel) = LabelSelector::parse(sel_str.as_str()) {
                if !sel.matches(&configmap.labels) {
                    return false;
                }
            }
        }
        true
    }

    pub fn matches_secret_criteria(secret: &SecretInfo, criteria: &FilterCriteria) -> (r: bool)
        requires
            secret.labels.wf(),
        ensures
            r == secret_matches(*secret, *criteria),
    {
        if let Some(sel_str) = &criteria.label_selector {
            if let Ok(sel) = LabelSelector::parse(sel_str.as_str()) {
                if !sel.matches(&secret.labels) {
                    return false;
                }
            }
        }
        true
    }

    /// Keeps the services the criteria match, in their original order.
    pub fn filter_services(services: Vec<ServiceInfo>, criteria: &FilterCriteria) -> (r: Vec<
        ServiceInfo,
    >)
        requires
            forall|i: int|
                0 <= i < services@.len() ==> ((#[trigger] services@[i].selector) matches Some(m)
                    ==> m.wf()),
        ensures
            r@ == services@.filter(|s: ServiceInfo| service_matches(s, *criteria)),
    {
        let ghost orig = services@;
        let ghost pred = |s: ServiceInfo| service_matches(s, *criteria);
        let mut input = services;
        let mut out: Vec<ServiceInfo> = Vec::new();
        while input.len() > 0
            invariant
                input@.len() <= orig.len(),
                input@ =~= orig.skip(orig.len() - input@.len()),
                out@ == orig.take(orig.len() - input@.len()).filter(pred),
                pred == (|s: ServiceInfo| service_matches(s, *criteria)),
                forall|i: int|
                    0 <= i < orig.len() ==> ((#[trigger] orig[i].selector) matches Some(m)
                        ==> m.wf()),
            decreases input@.len(),
        {
            let ghost k = orig.len() - input@.len();
            let ghost pre_input = input@;
            proof {
                assert(0 <= k < orig.len());
                assert(pre_input[0] == orig.skip(k)[0]);
                assert(orig.skip(k)[0] == orig[k]);
            }
            let x = input.remove(0);
            proof {
                assert(x == orig[k]);
                assert(input@ == pre_input.remove(0));
                assert(input@ =~= orig.skip(k + 1));
                assert(orig.take(k + 1) =~= orig.take(k).push(orig[k]));
            }
            if Self::matches_criteria(&x, criteria) {
                out.push(x);
            }
        }
        proof {
            assert(orig.take(orig.len() as int) =~= orig);
        }
        out
    }

    /// Keeps the deployments the criteria match, in their original order.
    pub fn filter_deployments(deployments: Vec<DeploymentInfo>, criteria: &FilterCriteria) -> (r:
        Vec<DeploymentInfo>)
        requires
            forall|i: int| 0 <= i < deployments@.len() ==> (#[trigger] deployments@[i]).labels.wf(),
        ensures
            r@ == deployments@.filter(|d: DeploymentInfo| deployment_matches(d, *criteria)),
    {
        let ghost orig = deployments@;
        let ghost pred = |d: DeploymentInfo| deployment_matches(d, *criteria);
        let mut input = deployments;
        let mut out: Vec<DeploymentInfo> = Vec::new();
        while input.len() > 0
            invariant
                input@.len() <= orig.len(),
                input@ =~= orig.skip(orig.len() - input@.len()),
                out@ == orig.take(orig.len() - input@.len()).filter(pred),
                pred == (|d: DeploymentInfo| deployment_matches(d, *criteria)),
                forall|i: int| 0 <= i < orig.len() ==> (#[trigger] orig[i]).labels.wf(),
            decreases input@.len(),
        {
            let ghost k = orig.len() - input@.len();
            let ghost pre_input = input@;
            proof {
                assert(0 <= k < orig.len());
                assert(pre_input[0] == orig.skip(k)[0]);
                assert(orig.skip(k)[0] == orig[k]);
            }
            let x = input.remove(0);
            proof {
                assert(x == orig[k]);
                assert(input@ == pre_input.remove(0));
                assert(input@ =~= orig.skip(k + 1));
                assert(orig.take(k + 1) =~= orig.take(k).push(orig[k]));
            }
            if Self::matches_deployment_criteria(&x, criteria) {
                out.push(x);
            }
        }
        proof {
            assert(orig.take(orig.len() as int) =~= orig);
        }
        out
    }

    /// Keeps the pods the criteria match, in their original order.
    pub fn filter_pods(pods: Vec<PodInfo>, criteria: &FilterCriteria) -> (r: Vec<PodInfo>)
        requires
            forall|i: int| 0 <= i < pods@.len() ==> (#[trigger] pods@[i]).labels.wf(),
        ensures
            r@ == pods@.filter(|p: PodInfo| pod_matches(p, *criteria)),
    {
        let ghost orig = pods@;
        let ghost pred = |p: PodInfo| pod_matches(p, *criteria);
        let mut input = pods;
        let mut out: Vec<PodInfo> = Vec::new();
        while input.len() > 0
            invariant
                input@.len() <= orig.len(),
                input@ =~= orig.skip(orig.len() - input@.len()),
                out@ == orig.take(orig.len() - input@.len()).filter(pred),
                pred == (|p: PodInfo| pod_matches(p, *criteria)),
                forall|i: int| 0 <= i < orig.len() ==> (#[trigger] orig[i]).labels.wf(),
            decreases input@.len(),
        {
            let ghost k = orig.len() - input@.len();
            let ghost pre_input = input@;
            proof {
                assert(0 <= k < orig.len());
                assert(pre_input[0] == orig.skip(k)[0]);
                assert(orig.skip(k)[0] == orig[k]);
            }
            let x = input.remove(0);
            proof {
                assert(x == orig[k]);
                assert(input@ == pre_input.remove(0));
                assert(input@ =~= orig.skip(k + 1));
                assert(orig.take(k + 1) =~= orig.take(k).push(orig[k]));
            }
            if Self::matches_pod_criteria(&x, criteria) {
                out.push(x);
            }
        }
        proof {
            assert(orig.take(orig.len() as int) =~= orig);
        }
        out
    }

    /// Keeps the config objects the criteria match, in their original order.
    pub fn filter_configmaps(configmaps: Vec<ConfigMapInfo>, criteria: &FilterCriteria) -> (r: Vec<
        ConfigMapInfo,
    >)
        requires
            forall|i: int| 0 <= i < configmaps@.len() ==> (#[trigger] configmaps@[i]).labels.wf(),
        ensures
            r@ == configmaps@.filter(|m: ConfigMapInfo| configmap_matches(m, *criteria)),
    {
        let ghost orig = configmaps@;
        let ghost pred = |m: ConfigMapInfo| configmap_matches(m, *criteria);
        let mut input = configmaps;
        let mut out: Vec<ConfigMapInfo> = Vec::new();
        while input.len() > 0
            invariant
                input@.len() <= orig.len(),
                input@ =~= orig.skip(orig.len() - input@.len()),
                out@ == orig.take(orig.len() - input@.len()).filter(pred),
                pred == (|m: ConfigMapInfo| configmap_matches(m, *criteria)),
                forall|i: int| 0 <= i < orig.len() ==> (#[trigger] orig[i]).labels.wf(),
            decreases input@.len(),
        {
            let ghost k = orig.len() - input@.len();
            let ghost pre_input = input@;
            proof {
                assert(0 <= k < orig.len());
                assert(pre_input[0] == orig.skip(k)[0]);
                assert(orig.skip(k)[0] == orig[k]);
            }
            let x = input.remove(0);
            proof {
                assert(x == orig[k]);
                assert(input@ == pre_input.remove(0));
                assert(input@ =~= orig.skip(k + 1));
                assert(orig.take(k + 1) =~= orig.take(k).push(orig[k]));
            }
            if Self::matches_configmap_criteria(&x, criteria) {
                out.push(x);
            }
        }
        proof {
            assert(orig.take(orig.len() as int) =~= orig);
        }
        out
    }

    /// Keeps the secrets the criteria match, in their original order.
    pub fn filter_secrets(secrets: Vec<SecretInfo>, criteria: &FilterCriteria) -> (r: Vec<
        SecretInfo,
    >)
        requires
            forall|i: int| 0 <= i < secrets@.len() ==> (#[trigger] secrets@[i]).labels.wf(),
        ensures
            r@ == secrets@.filter(|s: SecretInfo| secret_matches(s, *criteria)),
    {
        let ghost orig = secrets@;
        let ghost pred = |s: SecretInfo| secret_matches(s, *criteria);
        let mut input = secrets;
        let mut out: Vec<SecretInfo> = Vec::new();
        while input.len() > 0
            invariant
                input@.len() <= orig.len(),
                input@ =~= orig.skip(orig.len() - input@.len()),
                out@ == orig.take(orig.len() - input@.len()).filter(pred),
                pred == (|s: SecretInfo| secret_matches(s, *criteria)),
                forall|i: int| 0 <= i < orig.len() ==> (#[trigger] orig[i]).labels.wf(),
            decreases input@.len(),
        {
            let ghost k = orig.len() - input@.len();
            let ghost pre_input = input@;
            proof {
                assert(0 <= k < orig.len());
                assert(pre_input[0] == orig.skip(k)[0]);
                assert(orig.skip(k)[0] == orig[k]);
            }
            let x = input.remove(0);
            proof {
                assert(x == orig[k]);
                assert(input@ == pre_input.remove(0));
                assert(input@ =~= orig.skip(k + 1));
                assert(orig.take(k + 1) =~= orig.take(k).push(orig[k]));
            }
            if Self::matches_secret_criteria(&x, criteria) {
                out.push(x);
            }
        }
        proof {
            assert(orig.take(orig.len() as int) =~= orig);
        }
        out
    }
}

} // verus!
