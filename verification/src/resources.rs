//! Plain records describing cluster resources, and the small pieces of
//! record-level logic that the discovery layer leans on.

use vstd::prelude::*;
use crate::labels::LabelMap;
use crate::text::str_eq;

verus! {

#[derive(Debug, Clone)]
pub struct ServicePort {
    pub name: Option<String>,
    pub port: i32,
    pub target_port: String,
    pub protocol: String,
}

#[derive(Debug, Clone)]
pub struct ServiceInfo {
    pub name: String,
    pub namespace: String,
    pub ports: Vec<ServicePort>,
    pub cluster_ip: Option<String>,
    pub service_type: String,
    pub selector: Option<LabelMap>,
}

#[derive(Debug, Clone)]
pub struct PodInfo {
    pub name: String,
    pub namespace: String,
    pub phase: String,
    pub pod_ip: Option<String>,
    pub node_name: Option<String>,
    pub labels: LabelMap,
    pub ready_containers: u32,
    pub total_containers: u32,
    pub restart_count: u32,
    pub age: String,
}

#[derive(Debug, Clone)]
pub struct DeploymentInfo {
    pub name: String,
    pub namespace: String,
    pub replicas: i32,
    pub ready_replicas: i32,
    pub available_replicas: i32,
    pub strategy: String,
    pub age: String,
    pub labels: LabelMap,
    pub selector: LabelMap,
}

#[derive(Debug, Clone)]
pub struct StatefulSetInfo {
    pub name: String,
    pub namespace: String,
    pub replicas: i32,
    pub ready_replicas: i32,
    pub current_replicas: i32,
    pub age: String,
    pub labels: LabelMap,
    pub selector: LabelMap,
}

#[derive(Debug, Clone)]
pub struct DaemonSetInfo {
    pub name: String,
    pub namespace: String,
    pub desired: i32,
    pub current: i32,
    pub ready: i32,
    pub up_to_date: i32,
    pub age: String,
    pub labels: LabelMap,
    pub selector: LabelMap,
}

#[derive(Debug, Clone)]
pub enum ReferenceType {
    VolumeMount,
    Environment,
    EnvironmentFrom,
    ImagePullSecret,
}

#[derive(Debug, Clone)]
pub struct ResourceReference {
    pub kind: String,
    pub name: String,
    pub namespace: String,
    pub reference_type: ReferenceType,
}

#[derive(Debug, Clone)]
pub struct ConfigMapInfo {
    pub name: String,
    pub namespace: String,
    pub data_keys: Vec<String>,
    pub age: String,
    pub labels: LabelMap,
    pub used_by: Vec<ResourceReference>,
    pub mount_paths: Vec<String>,
}

#[derive(Debug, Clone)]
pub struct SecretInfo {
    pub name: String,
    pub namespace: String,
    pub secret_type: String,
    pub data_keys: Vec<String>,
    pub age: String,
    pub labels: LabelMap,
    pub used_by: Vec<ResourceReference>,
    pub mount_paths: Vec<String>,
}

#[derive(Debug, Clone)]
pub struct IngressPath {
    pub path: String,
    pub service_name: String,
    pub service_port: String,
}

#[derive(Debug, Clone)]
pub struct IngressInfo {
    pub name: String,
    pub namespace: String,
    pub hosts: Vec<String>,
    pub paths: Vec<IngressPath>,
    pub tls_enabled: bool,
}

#[derive(Debug, Clone)]
pub struct CRDInfo {
    pub name: String,
    pub group: String,
    pub version: String,
    pub kind: String,
    pub namespaced: bool,
}

#[derive(Debug, Clone)]
pub struct CustomResourceInfo {
    pub name: String,
    pub namespace: String,
    pub kind: String,
    pub age: String,
}

#[derive(Debug, Clone)]
pub struct ServiceHealth {
    pub service_name: String,
    pub namespace: String,
    pub overall_healthy: bool,
    pub checked_at: String,
}

#[derive(Debug, Clone)]
pub struct ServiceDescription {
    pub service: ServiceInfo,
    pub related_pods: Vec<PodInfo>,
}

#[derive(Debug, Clone)]
pub struct ServiceTopology {
    pub service: ServiceInfo,
    pub backend_pods: Vec<PodInfo>,
    pub ingress_routes: Vec<String>,
    pub dependencies: Vec<String>,
}

/// Whether some reference in `refs` already names this resource and kind.
pub open spec fn has_usage(refs: Seq<ResourceReference>, name: Seq<char>, kind: Seq<char>) -> bool {
    exists|i: int| 0 <= i < refs.len() && refs[i].name@ == name && refs[i].kind@ == kind
}

fn usage_recorded(refs: &Vec<ResourceReference>, name: &String, kind: &str) -> (r: bool)
    ensures
        r == has_usage(refs@, name@, kind@),
{
    let n = refs.len();
    let mut i: usize = 0;
    while i < n
        invariant
            0 <= i <= n,
            n == refs@.len(),
            forall|j: int| 0 <= j < i ==> !(refs@[j].name@ == name@ && refs@[j].kind@ == kind@),
        decreases n - i,
    {
        if refs[i].name == *name && str_eq(refs[i].kind.as_str(), kind) {
            return true;
        }
        i = i + 1;
    }
    false
}

/// What the recorded reference must say after a pod is matched against a
/// config object in its namespace.
pub open spec fn usage_updated(
    pre: Seq<ResourceReference>,
    post: Seq<ResourceReference>,
    pod: PodInfo,
    owner_namespace: Seq<char>,
) -> bool {
    if pod.namespace@ == owner_namespace && !has_usage(pre, pod.name@, "Pod"@) {
        &&& post.len() == pre.len() + 1
        &&& post.take(pre.len() as int) == pre
        &&& post.last().kind@ == "Pod"@
        &&& post.last().name@ == pod.name@
        &&& post.last().namespace@ == pod.namespace@
        &&& post.last().reference_type is VolumeMount
    } else {
        post == pre
    }
}

/// Records that `pod` uses `configmap` when both share a namespace,
/// without recording the same pod twice.
pub fn check_pod_configmap_references(pod: &PodInfo, configmap: &mut ConfigMapInfo)
    ensures
        usage_updated(old(configmap).used_by@, final(configmap).used_by@, *pod, old(
            configmap,
        ).namespace@),
        final(configmap).name == old(configmap).name,
        final(configmap).namespace == old(configmap).namespace,
        final(configmap).data_keys == old(configmap).data_keys,
        final(configmap).age == old(configmap).age,
        final(configmap).labels == old(configmap).labels,
        final(configmap).mount_paths == old(configmap).mount_paths,
{
    if pod.namespace == configmap.namespace {
        if !usage_recorded(&configmap.used_by, &pod.name, "Pod") {
            let reference = ResourceReference {
                kind: "Pod".to_owned(),
                name: pod.name.clone(),
                namespace: pod.namespace.clone(),
                reference_type: ReferenceType::VolumeMount,
            };
            configmap.used_by.push(reference);
            proof {
                assert(final(configmap).used_by@.take(old(configmap).used_by@.len() as int)
                    =~= old(configmap).used_by@);
            }
        }
    }
}

/// Records that `pod` uses `secret` when both share a namespace,
/// without recording the same pod twice.
pub fn check_pod_secret_references(pod: &PodInfo, secret: &mut SecretInfo)
    ensures
        usage_updated(old(secret).used_by@, final(secret).used_by@, *pod, old(secret).namespace@),
        final(secret).name == old(secret).name,
        final(secret).namespace == old(secret).namespace,
        final(secret).secret_type == old(secret).secret_type,
        final(secret).data_keys == old(secret).data_keys,
        final(secret).age == old(secret).age,
        final(secret).labels == old(secret).labels,
        final(secret).mount_paths == old(secret).mount_paths,
{
    if pod.namespace == secret.namespace {
        if !usage_recorded(&secret.used_by, &pod.name, "Pod") {
            let reference = ResourceReference {
                kind: "Pod".to_owned(),
                name: pod.name.clone(),
                namespace: pod.namespace.clone(),
                reference_type: ReferenceType::VolumeMount,
            };
            secret.used_by.push(reference);
            proof {
                assert(final(secret).used_by@.take(old(secret).used_by@.len() as int) =~= old(
                    secret,
                ).used_by@);
            }
        }
    }
}

/// The text of one `key=value` pair.
pub open spec fn pair_text(p: (String, String)) -> Seq<char> {
    p.0@ + "="@ + p.1@
}

/// The selector mapping written as comma-separated `key=value` pairs,
/// in stored order.
pub open spec fn joined_pairs(pairs: Seq<(String, String)>) -> Seq<char>
    decreases pairs.len(),
{
    if pairs.len() == 0 {
        Seq::empty()
    } else if pairs.len() == 1 {
        pair_text(pairs[0])
    } else {
        joined_pairs(pairs.drop_last()) + ","@ + pair_text(pairs.last())
    }
}

/// Writes a selector mapping as the selector string that would list the
/// pods it matches.
pub fn selector_string(selector: &LabelMap) -> (r: String)
    ensures
        r@ == joined_pairs(selector.pairs()),
{
    let mut out = String::new();
    let n = selector.pair_count();
    let mut i: usize = 0;
    while i < n
        invariant
            0 <= i <= n,
            n == selector.pairs().len(),
            out@ == joined_pairs(selector.pairs().take(i as int)),
        decreases n - i,
    {
        if i > 0 {
            out.append(",");
        }
        let pair = selector.pair_at(i);
        out.append(pair.0.as_str());
        out.append("=");
        out.append(pair.1.as_str());
        proof {
            let taken = selector.pairs().take(i + 1);
            assert(taken.drop_last() =~= selector.pairs().take(i as int));
            assert(taken.last() == selector.pairs()[i as int]);
        }
        i = i + 1;
    }
    proof {
        assert(selector.pairs().take(n as int) =~= selector.pairs());
    }
    out
}

/// The route text for one ingress host.
pub open spec fn route_text(tls_enabled: bool, host: Seq<char>) -> Seq<char> {
    if tls_enabled {
        "https://"@ + host
    } else {
        "http://"@ + host
    }
}

/// Every route of one ingress, one per host.
pub open spec fn ingress_routes(ing: IngressInfo) -> Seq<Seq<char>> {
    ing.hosts@.map_values(|h: String| route_text(ing.tls_enabled, h@))
}

/// Every route of a list of ingresses, in order.
pub open spec fn all_ingress_routes(ings: Seq<IngressInfo>) -> Seq<Seq<char>>
    decreases ings.len(),
{
    if ings.len() == 0 {
        Seq::empty()
    } else {
        all_ingress_routes(ings.drop_last()) + ingress_routes(ings.last())
    }
}

/// Writes the externally visible routes of the given ingresses, `https`
/// where TLS is enabled and `http` where it is not.
pub fn ingress_route_urls(ingresses: &Vec<IngressInfo>) -> (r: Vec<String>)
    ensures
        r.deep_view() == all_ingress_routes(ingresses@),
{
    let mut out: Vec<String> = Vec::new();
    let n = ingresses.len();
    let mut i: usize = 0;
    while i < n
        invariant
            0 <= i <= n,
            n == ingresses@.len(),
            out.deep_view() == all_ingress_routes(ingresses@.take(i as int)),
        decreases n - i,
    {
        let ing = &ingresses[i];
        let m = ing.hosts.len();
        let mut j: usize = 0;
        while j < m
            invariant
                0 <= j <= m,
                0 <= i < n,
                n == ingresses@.len(),
                ing == ingresses@[i as int],
                m == ing.hosts@.len(),
                out.deep_view() == all_ingress_routes(ingresses@.take(i as int))
                    + ingress_routes(*ing).take(j as int),
            decreases m - j,
        {
            let mut url: String = if ing.tls_enabled {
                "https://".to_owned()
            } else {
                "http://".to_owned()
            };
            url.append(ing.hosts[j].as_str());
            let ghost url_view = url@;
            let ghost prev_dv = out.deep_view();
            out.push(url);
            proof {
                assert(url_view == route_text(ing.tls_enabled, ing.hosts@[j as int]@));
                assert(out.deep_view() =~~= prev_dv.push(url_view));
                assert(ingress_routes(*ing).take(j + 1) =~~= ingress_routes(*ing).take(
                    j as int,
                ).push(route_text(ing.tls_enabled, ing.hosts@[j as int]@)));
                assert(out.deep_view() =~~= all_ingress_routes(ingresses@.take(i as int))
                    + ingress_routes(*ing).take(j + 1));
            }
            j = j + 1;
        }
        proof {
            assert(ingresses@.take(i + 1).drop_last() =~= ingresses@.take(i as int));
            assert(ingresses@.take(i + 1).last() == ingresses@[i as int]);
            assert(ingress_routes(*ing).take(m as int) =~~= ingress_routes(*ing));
            assert(out.deep_view() =~~= all_ingress_routes(ingresses@.take(i + 1)));
        }
        i = i + 1;
    }
    proof {
        assert(ingresses@.take(n as int) =~= ingresses@);
    }
    out
}

/// Whether a cluster IP value names an address that can be reached.
pub open spec fn reachable_cluster_ip(cluster_ip: Option<String>) -> bool {
    match cluster_ip {
        Some(ip) => ip@ != "None"@ && ip@.len() > 0 && ip@ != "ClusterIP"@,
        None => false,
    }
}

/// The health verdict drawn from a service's cluster IP: healthy exactly
/// when the IP field holds a usable address.
pub fn cluster_ip_reachable(cluster_ip: &Option<String>) -> (r: bool)
    ensures
        r == reachable_cluster_ip(*cluster_ip),
{
    match cluster_ip {
        Some(ip) => {
            !str_eq(ip.as_str(), "None") && ip.as_str().unicode_len() > 0 && !str_eq(
                ip.as_str(),
                "ClusterIP",
            )
        },
        None => false,
    }
}

} // verus!
