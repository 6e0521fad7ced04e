//! A per-kind, scope-keyed cache of discovery results with TTL expiry,
//! backed by a concurrency-safe sharded map.
//!
//! Time is explicit: callers pass the current instant in milliseconds,
//! and every contract is stated against that instant.

use vstd::prelude::*;
use dashmap::DashMap;
use crate::resources::{
    CRDInfo, ConfigMapInfo, CustomResourceInfo, DaemonSetInfo, DeploymentInfo, PodInfo,
    SecretInfo, ServiceInfo, StatefulSetInfo,
};

verus! {

/// A cached payload with its insertion instant and time to live. Never
/// mutated in place: replaced wholesale on refresh.
#[derive(Debug, Clone)]
pub struct CacheEntry<T> {
    data: T,
    created_at_ms: u64,
    ttl_ms: u64,
}

impl<T> CacheEntry<T> {
    pub closed spec fn spec_data(&self) -> T {
        self.data
    }

    pub closed spec fn spec_created_at(&self) -> u64 {
        self.created_at_ms
    }

    pub closed spec fn spec_ttl(&self) -> u64 {
        self.ttl_ms
    }

    /// Whether more than the time to live has passed since insertion.
    pub open spec fn is_expired_spec(&self, now_ms: u64) -> bool {
        now_ms > self.spec_created_at() + self.spec_ttl()
    }

    /// An entry stamped with the given instant.
    pub fn new(data: T, ttl_ms: u64, now_ms: u64) -> (r: Self)
        ensures
            r.spec_data() == data,
            r.spec_created_at() == now_ms,
            r.spec_ttl() == ttl_ms,
    {
        CacheEntry { data, created_at_ms: now_ms, ttl_ms }
    }

    /// Whether the entry is stale at the given instant.
    pub fn is_expired(&self, now_ms: u64) -> (r: bool)
        ensures
            r == self.is_expired_spec(now_ms),
    {
        if now_ms <= self.created_at_ms {
            false
        } else {
            now_ms - self.created_at_ms > self.ttl_ms
        }
    }

    pub fn data(&self) -> (r: &T)
        ensures
            r == self.spec_data(),
    {
        &self.data
    }

    /// Takes the payload out of the entry.
    pub fn into_data(self) -> (r: T)
        ensures
            r == self.spec_data(),
    {
        self.data
    }
}

/// The entry stamped by a store at the given instant.
pub closed spec fn entry_of(data: ResourcePayload, ttl_ms: u64, now_ms: u64) -> CacheEntry<
    ResourcePayload,
> {
    CacheEntry { data, created_at_ms: now_ms, ttl_ms }
}

pub proof fn lemma_entry_of(data: ResourcePayload, ttl_ms: u64, now_ms: u64)
    ensures
        entry_of(data, ttl_ms, now_ms).spec_data() == data,
        entry_of(data, ttl_ms, now_ms).spec_created_at() == now_ms,
        entry_of(data, ttl_ms, now_ms).spec_ttl() == ttl_ms,
{
}

/// One resource kind's collection, tagged, so that every kind's entries
/// live in maps of one shape.
#[derive(Debug, Clone)]
pub enum ResourcePayload {
    Services(Vec<ServiceInfo>),
    Pods(Vec<PodInfo>),
    Deployments(Vec<DeploymentInfo>),
    StatefulSets(Vec<StatefulSetInfo>),
    DaemonSets(Vec<DaemonSetInfo>),
    ConfigMaps(Vec<ConfigMapInfo>),
    Secrets(Vec<SecretInfo>),
    Crds(Vec<CRDInfo>),
    CustomResources(Vec<CustomResourceInfo>),
}

#[verifier::external_type_specification]
#[verifier::external_body]
#[verifier::reject_recursive_types(K)]
#[verifier::reject_recursive_types(V)]
#[verifier::reject_recursive_types(S)]
pub struct ExDashMap<K, V, S>(DashMap<K, V, S>);

/// What a kind's sharded map holds: entry under key text.
pub uninterp spec fn dash_view(m: DashMap<String, CacheEntry<ResourcePayload>>) -> Map<
    Seq<char>,
    CacheEntry<ResourcePayload>,
>;

/// The empty kind map.
pub open spec fn empty_kind_map() -> Map<Seq<char>, CacheEntry<ResourcePayload>> {
    Map::empty()
}

/// Relies on dashmap::DashMap::new: makes an empty map.
#[verifier::external_body]
fn dash_new() -> (r: DashMap<String, CacheEntry<ResourcePayload>>)
    ensures
        dash_view(r) == empty_kind_map(),
{
    DashMap::new()
}

/// Relies on dashmap::DashMap::get: hands back a copy of the entry under
/// the key, if one is held.
#[verifier::external_body]
fn dash_get(m: &DashMap<String, CacheEntry<ResourcePayload>>, key: &String) -> (r: Option<
    CacheEntry<ResourcePayload>,
>)
    ensures
        match r {
            Some(e) => dash_view(*m).contains_key(key@) && e == dash_view(*m)[key@],
            None => !dash_view(*m).contains_key(key@),
        },
{
    m.get(key).map(|e| e.value().clone())
}

/// Relies on dashmap::DashMap::insert: maps the key to the value,
/// replacing what was there.
#[verifier::external_body]
fn dash_insert(
    m: &mut DashMap<String, CacheEntry<ResourcePayload>>,
    key: String,
    value: CacheEntry<ResourcePayload>,
)
    ensures
        dash_view(*final(m)) == dash_view(*old(m)).insert(key@, value),
{
    m.insert(key, value);
}

/// Relies on dashmap::DashMap::remove: takes the entry under the key
/// out, handing back the pair that was held.
#[verifier::external_body]
fn dash_remove(m: &mut DashMap<String, CacheEntry<ResourcePayload>>, key: &String) -> (r: Option<
    (String, CacheEntry<ResourcePayload>),
>)
    ensures
        dash_view(*final(m)) == dash_view(*old(m)).remove(key@),
        match r {
            Some(p) => p.0@ == key@ && dash_view(*old(m)).contains_key(key@) && p.1 == dash_view(
                *old(m),
            )[key@],
            None => !dash_view(*old(m)).contains_key(key@),
        },
{
    m.remove(key)
}

/// Relies on dashmap::DashMap::len: counts the entries held.
#[verifier::external_body]
fn dash_len(m: &DashMap<String, CacheEntry<ResourcePayload>>) -> (r: usize)
    requires
        dash_view(*m).dom().finite(),
    ensures
        r == dash_view(*m).dom().len(),
{
    m.len()
}

/// Relies on dashmap::DashMap::clear: removes every entry.
#[verifier::external_body]
fn dash_clear(m: &mut DashMap<String, CacheEntry<ResourcePayload>>)
    ensures
        dash_view(*final(m)) == empty_kind_map(),
{
    m.clear();
}

/// Relies on dashmap::DashMap::retain: keeps exactly the entries its
/// closure approves, unchanged; the closure here only calls the entry's
/// verified freshness test.
#[verifier::external_body]
fn dash_retain_fresh(m: &mut DashMap<String, CacheEntry<ResourcePayload>>, now_ms: u64)
    ensures
        forall|k: Seq<char>| #[trigger]
            dash_view(*final(m)).contains_key(k) <==> (dash_view(*old(m)).contains_key(k)
                && !dash_view(*old(m))[k].is_expired_spec(now_ms)),
        forall|k: Seq<char>|
            dash_view(*final(m)).contains_key(k) ==> #[trigger] dash_view(*final(m))[k]
                == dash_view(*old(m))[k],
{
    m.retain(|_, e| !e.is_expired(now_ms));
}

/// The text views of optional scope arguments.
pub open spec fn opt_view(s: Option<&str>) -> Option<Seq<char>> {
    match s {
        Some(x) => Some(x@),
        None => None,
    }
}

/// The deterministic lookup key a query scope yields.
pub open spec fn scope_key(namespace: Option<Seq<char>>, selector: Option<Seq<char>>) -> Seq<
    char,
> {
    match (namespace, selector) {
        (Some(ns), Some(sel)) => ns + ":"@ + sel,
        (Some(ns), None) => ns,
        (None, Some(sel)) => "all:"@ + sel,
        (None, None) => "all"@,
    }
}

/// The compound key of a custom-resource query: the definition name in
/// front of the namespace scope.
pub open spec fn custom_scope_key(crd: Seq<char>, namespace: Option<Seq<char>>) -> Seq<char> {
    crd + ":"@ + scope_key(namespace, None)
}

fn scope_key_exec(namespace: Option<&str>, selector: Option<&str>) -> (r: String)
    ensures
        r@ == scope_key(opt_view(namespace), opt_view(selector)),
{
    match (namespace, selector) {
        (Some(ns), Some(sel)) => {
            let mut s = ns.to_owned();
            s.append(":");
            s.append(sel);
            s
        },
        (Some(ns), None) => ns.to_owned(),
        (None, Some(sel)) => {
            let mut s = "all:".to_owned();
            s.append(sel);
            s
        },
        (None, None) => "all".to_owned(),
    }
}

/// What a read at `now_ms` hands back: the payload under the key, unless
/// none is held or the entry has outlived its TTL.
pub open spec fn cache_lookup(
    m: Map<Seq<char>, CacheEntry<ResourcePayload>>,
    key: Seq<char>,
    now_ms: u64,
) -> Option<ResourcePayload> {
    if m.contains_key(key) && !m[key].is_expired_spec(now_ms) {
        Some(m[key].spec_data())
    } else {
        None
    }
}

/// What a read at `now_ms` leaves behind: an expired entry is removed as
/// a side effect of the read.
pub open spec fn lookup_update(
    m: Map<Seq<char>, CacheEntry<ResourcePayload>>,
    key: Seq<char>,
    now_ms: u64,
) -> Map<Seq<char>, CacheEntry<ResourcePayload>> {
    if m.contains_key(key) && m[key].is_expired_spec(now_ms) {
        m.remove(key)
    } else {
        m
    }
}

/// What the explicit sweep leaves: exactly the entries still fresh at
/// `now_ms`, unchanged.
pub open spec fn sweep_update(
    m: Map<Seq<char>, CacheEntry<ResourcePayload>>,
    now_ms: u64,
) -> Map<Seq<char>, CacheEntry<ResourcePayload>> {
    m.restrict(m.dom().filter(|k: Seq<char>| !m[k].is_expired_spec(now_ms)))
}

/// Law: a store followed at once by a read of the same kind and scope
/// hands the stored payload back.
pub proof fn lemma_cache_round_trip(
    m: Map<Seq<char>, CacheEntry<ResourcePayload>>,
    key: Seq<char>,
    data: ResourcePayload,
    ttl_ms: u64,
    now_ms: u64,
)
    ensures
        cache_lookup(m.insert(key, entry_of(data, ttl_ms, now_ms)), key, now_ms) == Some(data),
{
    lemma_entry_of(data, ttl_ms, now_ms);
}

/// Law: once more than the TTL has elapsed since the store, the read
/// refuses the entry and removes it.
pub proof fn lemma_cache_expiry(
    m: Map<Seq<char>, CacheEntry<ResourcePayload>>,
    key: Seq<char>,
    data: ResourcePayload,
    ttl_ms: u64,
    now_ms: u64,
    later_ms: u64,
)
    requires
        later_ms > now_ms + ttl_ms,
    ensures
        cache_lookup(m.insert(key, entry_of(data, ttl_ms, now_ms)), key, later_ms) is None,
        lookup_update(m.insert(key, entry_of(data, ttl_ms, now_ms)), key, later_ms) == m.insert(
            key,
            entry_of(data, ttl_ms, now_ms),
        ).remove(key),
        !lookup_update(
            m.insert(key, entry_of(data, ttl_ms, now_ms)),
            key,
            later_ms,
        ).contains_key(key),
{
    lemma_entry_of(data, ttl_ms, now_ms);
}

/// Law: the sweep removes exactly the entries whose age exceeds their
/// TTL, and leaves fresh entries untouched.
pub proof fn lemma_sweep_removes_only_expired(
    m: Map<Seq<char>, CacheEntry<ResourcePayload>>,
    now_ms: u64,
    k: Seq<char>,
)
    ensures
        sweep_update(m, now_ms).contains_key(k) <==> (m.contains_key(k)
            && !m[k].is_expired_spec(now_ms)),
        sweep_update(m, now_ms).contains_key(k) ==> sweep_update(m, now_ms)[k] == m[k],
{
}

/// A mathematical image of the whole cache: one map per kind and the
/// configured TTL.
pub struct CacheModel {
    pub services: Map<Seq<char>, CacheEntry<ResourcePayload>>,
    pub pods: Map<Seq<char>, CacheEntry<ResourcePayload>>,
    pub deployments: Map<Seq<char>, CacheEntry<ResourcePayload>>,
    pub statefulsets: Map<Seq<char>, CacheEntry<ResourcePayload>>,
    pub daemonsets: Map<Seq<char>, CacheEntry<ResourcePayload>>,
    pub configmaps: Map<Seq<char>, CacheEntry<ResourcePayload>>,
    pub secrets: Map<Seq<char>, CacheEntry<ResourcePayload>>,
    pub crds: Map<Seq<char>, CacheEntry<ResourcePayload>>,
    pub custom_resources: Map<Seq<char>, CacheEntry<ResourcePayload>>,
    pub default_ttl_ms: u64,
}

/// The scope-keyed result cache, one independent sharded map per
/// resource kind.
pub struct ResourceCache {
    services: DashMap<String, CacheEntry<ResourcePayload>>,
    pods: DashMap<String, CacheEntry<ResourcePayload>>,
    deployments: DashMap<String, CacheEntry<ResourcePayload>>,
    statefulsets: DashMap<String, CacheEntry<ResourcePayload>>,
    daemonsets: DashMap<String, CacheEntry<ResourcePayload>>,
    configmaps: DashMap<String, CacheEntry<ResourcePayload>>,
    secrets: DashMap<String, CacheEntry<ResourcePayload>>,
    crds: DashMap<String, CacheEntry<ResourcePayload>>,
    custom_resources: DashMap<String, CacheEntry<ResourcePayload>>,
    default_ttl_ms: u64,
}

/// A map of one kind is well formed when its key set is finite and every
/// payload it holds carries that kind.
pub open spec fn map_holds(
    m: Map<Seq<char>, CacheEntry<ResourcePayload>>,
    pred: spec_fn(ResourcePayload) -> bool,
) -> bool {
    &&& m.dom().finite()
    &&& forall|k: Seq<char>| #[trigger] m.contains_key(k) ==> pred(m[k].spec_data())
}

impl View for ResourceCache {
    type V = CacheModel;

    closed spec fn view(&self) -> CacheModel {
        CacheModel {
            services: dash_view(self.services),
            pods: dash_view(self.pods),
            deployments: dash_view(self.deployments),
            statefulsets: dash_view(self.statefulsets),
            daemonsets: dash_view(self.daemonsets),
            configmaps: dash_view(self.configmaps),
            secrets: dash_view(self.secrets),
            crds: dash_view(self.crds),
            custom_resources: dash_view(self.custom_resources),
            default_ttl_ms: self.default_ttl_ms,
        }
    }
}

impl ResourceCache {
    pub open spec fn wf(&self) -> bool {
        &&& map_holds(self@.services, |p: ResourcePayload| p is Services)
        &&& map_holds(self@.pods, |p: ResourcePayload| p is Pods)
        &&& map_holds(self@.deployments, |p: ResourcePayload| p is Deployments)
        &&& map_holds(self@.statefulsets, |p: ResourcePayload| p is StatefulSets)
        &&& map_holds(self@.daemonsets, |p: ResourcePayload| p is DaemonSets)
        &&& map_holds(self@.configmaps, |p: ResourcePayload| p is ConfigMaps)
        &&& map_holds(self@.secrets, |p: ResourcePayload| p is Secrets)
        &&& map_holds(self@.crds, |p: ResourcePayload| p is Crds)
        &&& map_holds(self@.custom_resources, |p: ResourcePayload| p is CustomResources)
    }

    /// An empty cache whose stores will stamp entries with this TTL.
    pub fn new(default_ttl_ms: u64) -> (r: Self)
        ensures
            r.wf(),
            r@.services == empty_kind_map(),
            r@.pods == empty_kind_map(),
            r@.deployments == empty_kind_map(),
            r@.statefulsets == empty_kind_map(),
            r@.daemonsets == empty_kind_map(),
            r@.configmaps == empty_kind_map(),
            r@.secrets == empty_kind_map(),
            r@.crds == empty_kind_map(),
            r@.custom_resources == empty_kind_map(),
            r@.default_ttl_ms == default_ttl_ms,
    {
        ResourceCache {
            services: dash_new(),
            pods: dash_new(),
            deployments: dash_new(),
            statefulsets: dash_new(),
            daemonsets: dash_new(),
            configmaps: dash_new(),
            secrets: dash_new(),
            crds: dash_new(),
            custom_resources: dash_new(),
            default_ttl_ms,
        }
    }
}

/// One kind map's read: hands back the fresh payload under the key and
/// removes the entry it found stale.
fn core_get(m: &mut DashMap<String, CacheEntry<ResourcePayload>>, key: &String, now_ms: u64) -> (r:
    Option<ResourcePayload>)
    ensures
        r == cache_lookup(dash_view(*old(m)), key@, now_ms),
        dash_view(*final(m)) == lookup_update(dash_view(*old(m)), key@, now_ms),
{
    match dash_get(m, key) {
        Some(entry) => {
            if entry.is_expired(now_ms) {
                let _ = dash_remove(m, key);
                None
            } else {
                Some(entry.into_data())
            }
        },
        None => None,
    }
}

proof fn lemma_lookup_update_holds(
    m: Map<Seq<char>, CacheEntry<ResourcePayload>>,
    key: Seq<char>,
    now_ms: u64,
    pred: spec_fn(ResourcePayload) -> bool,
)
    requires
        map_holds(m, pred),
    ensures
        map_holds(lookup_update(m, key, now_ms), pred),
{
    let post = lookup_update(m, key, now_ms);
    if m.contains_key(key) && m[key].is_expired_spec(now_ms) {
        assert(post.dom() =~= m.dom().remove(key));
        assert forall|k: Seq<char>| #[trigger] post.contains_key(k) implies pred(
            post[k].spec_data(),
        ) by {
            assert(m.contains_key(k));
        }
    }
}

proof fn lemma_insert_holds(
    m: Map<Seq<char>, CacheEntry<ResourcePayload>>,
    key: Seq<char>,
    e: CacheEntry<ResourcePayload>,
    pred: spec_fn(ResourcePayload) -> bool,
)
    requires
        map_holds(m, pred),
        pred(e.spec_data()),
    ensures
        map_holds(m.insert(key, e), pred),
{
    let post = m.insert(key, e);
    assert(post.dom() =~= m.dom().insert(key));
    assert forall|k: Seq<char>| #[trigger] post.contains_key(k) implies pred(
        post[k].spec_data(),
    ) by {
        if k != key {
            assert(m.contains_key(k));
        }
    }
}

proof fn lemma_sweep_holds(
    m: Map<Seq<char>, CacheEntry<ResourcePayload>>,
    now_ms: u64,
    pred: spec_fn(ResourcePayload) -> bool,
)
    requires
        map_holds(m, pred),
    ensures
        map_holds(sweep_update(m, now_ms), pred),
{
    let keep = m.dom().filter(|k: Seq<char>| !m[k].is_expired_spec(now_ms));
    let post = sweep_update(m, now_ms);
    assert(post.dom() =~= m.dom().intersect(keep));
    vstd::set::axiom_set_intersect_finite(m.dom(), keep);
    assert(post.dom().finite());
    assert forall|k: Seq<char>| #[trigger] post.contains_key(k) implies pred(
        post[k].spec_data(),
    ) by {
        assert(m.contains_key(k));
    }
}

proof fn lemma_empty_holds(pred: spec_fn(ResourcePayload) -> bool)
    ensures
        map_holds(empty_kind_map(), pred),
{
    assert(empty_kind_map().dom() =~= Set::<Seq<char>>::empty());
}

impl ResourceCache {

    /// The cached services under the scope, when present and fresh at
    /// `now_ms`; a stale entry found by the read is removed.
    pub fn get_services(&mut self, namespace: Option<&str>, selector: Option<&str>, now_ms: u64) -> (r: Option<Vec<ServiceInfo>>)
        requires
            old(self).wf(),
        ensures
            final(self).wf(),
            final(self)@ == (CacheModel {
                services: lookup_update(old(self)@.services, scope_key(opt_view(namespace), opt_view(selector)), now_ms),
                ..old(self)@
            }),
            match r {
                Some(v) => cache_lookup(old(self)@.services, scope_key(opt_view(namespace), opt_view(selector)), now_ms) == Some(
                    ResourcePayload::Services(v),
                ),
                None => cache_lookup(old(self)@.services, scope_key(opt_view(namespace), opt_view(selector)), now_ms) is None,
            },
    {
        let key = scope_key_exec(namespace, selector);
        let found = core_get(&mut self.services, &key, now_ms);
        proof {
            lemma_lookup_update_holds(
                old(self)@.services,
                key@,
                now_ms,
                |p: ResourcePayload| p is Services,
            );
        }
        match found {
            Some(payload) => match payload {
                ResourcePayload::Services(v) => Some(v),
                _ => {
                    proof {
                        assert(old(self)@.services.contains_key(key@));
                        assert(false);
                    }
                    None
                },
            },
            None => None,
        }
    }

    /// Stores the services for the scope under a fresh entry stamped at
    /// `now_ms` with the cache's TTL, replacing what was there.
    pub fn set_services(&mut self, namespace: Option<&str>, selector: Option<&str>, data: Vec<ServiceInfo>, now_ms: u64)
        requires
            old(self).wf(),
        ensures
            final(self).wf(),
            final(self)@ == (CacheModel {
                services: old(self)@.services.insert(
                    scope_key(opt_view(namespace), opt_view(selector)),
                    entry_of(ResourcePayload::Services(data), old(self)@.default_ttl_ms, now_ms),
                ),
                ..old(self)@
            }),
    {
        let key = scope_key_exec(namespace, selector);
        let entry = CacheEntry::new(ResourcePayload::Services(data), self.default_ttl_ms, now_ms);
        proof {
            assert(entry == entry_of(entry.spec_data(), old(self)@.default_ttl_ms, now_ms));
            lemma_insert_holds(
                old(self)@.services,
                key@,
                entry,
                |p: ResourcePayload| p is Services,
            );
        }
        dash_insert(&mut self.services, key, entry);
    }

    /// The cached pods under the scope, when present and fresh at
    /// `now_ms`; a stale entry found by the read is removed.
    pub fn get_pods(&mut self, namespace: Option<&str>, selector: Option<&str>, now_ms: u64) -> (r: Option<Vec<PodInfo>>)
        requires
            old(self).wf(),
        ensures
            final(self).wf(),
            final(self)@ == (CacheModel {
                pods: lookup_update(old(self)@.pods, scope_key(opt_view(namespace), opt_view(selector)), now_ms),
                ..old(self)@
            }),
            match r {
                Some(v) => cache_lookup(old(self)@.pods, scope_key(opt_view(namespace), opt_view(selector)), now_ms) == Some(
                    ResourcePayload::Pods(v),
                ),
                None => cache_lookup(old(self)@.pods, scope_key(opt_view(namespace), opt_view(selector)), now_ms) is None,
            },
    {
        let key = scope_key_exec(namespace, selector);
        let found = core_get(&mut self.pods, &key, now_ms);
        proof {
            lemma_lookup_update_holds(
                old(self)@.pods,
                key@,
                now_ms,
                |p: ResourcePayload| p is Pods,
            );
        }
        match found {
            Some(payload) => match payload {
                ResourcePayload::Pods(v) => Some(v),
                _ => {
                    proof {
                        assert(old(self)@.pods.contains_key(key@));
                        assert(false);
                    }
                    None
                },
            },
            None => None,
        }
    }

    /// Stores the pods for the scope under a fresh entry stamped at
    /// `now_ms` with the cache's TTL, replacing what was there.
    pub fn set_pods(&mut self, namespace: Option<&str>, selector: Option<&str>, data: Vec<PodInfo>, now_ms: u64)
        requires
            old(self).wf(),
        ensures
            final(self).wf(),
            final(self)@ == (CacheModel {
                pods: old(self)@.pods.insert(
                    scope_key(opt_view(namespace), opt_view(selector)),
                    entry_of(ResourcePayload::Pods(data), old(self)@.default_ttl_ms, now_ms),
                ),
                ..old(self)@
            }),
    {
        let key = scope_key_exec(namespace, selector);
        let entry = CacheEntry::new(ResourcePayload::Pods(data), self.default_ttl_ms, now_ms);
        proof {
            assert(entry == entry_of(entry.spec_data(), old(self)@.default_ttl_ms, now_ms));
            lemma_insert_holds(
                old(self)@.pods,
                key@,
                entry,
                |p: ResourcePayload| p is Pods,
            );
        }
        dash_insert(&mut self.pods, key, entry);
    }

    /// The cached deployments under the scope, when present and fresh at
    /// `now_ms`; a stale entry found by the read is removed.
    pub fn get_deployments(&mut self, namespace: Option<&str>, now_ms: u64) -> (r: Option<Vec<DeploymentInfo>>)
        requires
            old(self).wf(),
        ensures
            final(self).wf(),
            final(self)@ == (CacheModel {
                deployments: lookup_update(old(self)@.deployments, scope_key(opt_view(namespace), None), now_ms),
                ..old(self)@
            }),
            match r {
                Some(v) => cache_lookup(old(self)@.deployments, scope_key(opt_view(namespace), None), now_ms) == Some(
                    ResourcePayload::Deployments(v),
                ),
                None => cache_lookup(old(self)@.deployments, scope_key(opt_view(namespace), None), now_ms) is None,
            },
    {
        let key = scope_key_exec(namespace, None);
        let found = core_get(&mut self.deployments, &key, now_ms);
        proof {
            lemma_lookup_update_holds(
                old(self)@.deployments,
                key@,
                now_ms,
                |p: ResourcePayload| p is Deployments,
            );
        }
        match found {
            Some(payload) => match payload {
                ResourcePayload::Deployments(v) => Some(v),
                _ => {
                    proof {
                        assert(old(self)@.deployments.contains_key(key@));
                        assert(false);
                    }
                    None
                },
            },
            None => None,
        }
    }

    /// Stores the deployments for the scope under a fresh entry stamped at
    /// `now_ms` with the cache's TTL, replacing what was there.
    pub fn set_deployments(&mut self, namespace: Option<&str>, data: Vec<DeploymentInfo>, now_ms: u64)
        requires
            old(self).wf(),
        ensures
            final(self).wf(),
            final(self)@ == (CacheModel {
                deployments: old(self)@.deployments.insert(
                    scope_key(opt_view(namespace), None),
                    entry_of(ResourcePayload::Deployments(data), old(self)@.default_ttl_ms, now_ms),
                ),
                ..old(self)@
            }),
    {
        let key = scope_key_exec(namespace, None);
        let entry = CacheEntry::new(ResourcePayload::Deployments(data), self.default_ttl_ms, now_ms);
        proof {
            assert(entry == entry_of(entry.spec_data(), old(self)@.default_ttl_ms, now_ms));
            lemma_insert_holds(
                old(self)@.deployments,
                key@,
                entry,
                |p: ResourcePayload| p is Deployments,
            );
        }
        dash_insert(&mut self.deployments, key, entry);
    }

    /// The cached statefulsets under the scope, when present and fresh at
    /// `now_ms`; a stale entry found by the read is removed.
    pub fn get_statefulsets(&mut self, namespace: Option<&str>, now_ms: u64) -> (r: Option<Vec<StatefulSetInfo>>)
        requires
            old(self).wf(),
        ensures
            final(self).wf(),
            final(self)@ == (CacheModel {
                statefulsets: lookup_update(old(self)@.statefulsets, scope_key(opt_view(namespace), None), now_ms),
                ..old(self)@
            }),
            match r {
                Some(v) => cache_lookup(old(self)@.statefulsets, scope_key(opt_view(namespace), None), now_ms) == Some(
                    ResourcePayload::StatefulSets(v),
                ),
                None => cache_lookup(old(self)@.statefulsets, scope_key(opt_view(namespace), None), now_ms) is None,
            },
    {
        let key = scope_key_exec(namespace, None);
        let found = core_get(&mut self.statefulsets, &key, now_ms);
        proof {
            lemma_lookup_update_holds(
                old(self)@.statefulsets,
                key@,
                now_ms,
                |p: ResourcePayload| p is StatefulSets,
            );
        }
        match found {
            Some(payload) => match payload {
                ResourcePayload::StatefulSets(v) => Some(v),
                _ => {
                    proof {
                        assert(old(self)@.statefulsets.contains_key(key@));
                        assert(false);
                    }
                    None
                },
            },
            None => None,
        }
    }

    /// Stores the statefulsets for the scope under a fresh entry stamped at
    /// `now_ms` with the cache's TTL, replacing what was there.
    pub fn set_statefulsets(&mut self, namespace: Option<&str>, data: Vec<StatefulSetInfo>, now_ms: u64)
        requires
            old(self).wf(),
        ensures
            final(self).wf(),
            final(self)@ == (CacheModel {
                statefulsets: old(self)@.statefulsets.insert(
                    scope_key(opt_view(namespace), None),
                    entry_of(ResourcePayload::StatefulSets(data), old(self)@.default_ttl_ms, now_ms),
                ),
                ..old(self)@
            }),
    {
        let key = scope_key_exec(namespace, None);
        let entry = CacheEntry::new(ResourcePayload::StatefulSets(data), self.default_ttl_ms, now_ms);
        proof {
            assert(entry == entry_of(entry.spec_data(), old(self)@.default_ttl_ms, now_ms));
            lemma_insert_holds(
                old(self)@.statefulsets,
                key@,
                entry,
                |p: ResourcePayload| p is StatefulSets,
            );
        }
        dash_insert(&mut self.statefulsets, key, entry);
    }

    /// The cached daemonsets under the scope, when present and fresh at
    /// `now_ms`; a stale entry found by the read is removed.
    pub fn get_daemonsets(&mut self, namespace: Option<&str>, now_ms: u64) -> (r: Option<Vec<DaemonSetInfo>>)
        requires
            old(self).wf(),
        ensures
            final(self).wf(),
            final(self)@ == (CacheModel {
                daemonsets: lookup_update(old(self)@.daemonsets, scope_key(opt_view(namespace), None), now_ms),
                ..old(self)@
            }),
            match r {
                Some(v) => cache_lookup(old(self)@.daemonsets, scope_key(opt_view(namespace), None), now_ms) == Some(
                    ResourcePayload::DaemonSets(v),
                ),
                None => cache_lookup(old(self)@.daemonsets, scope_key(opt_view(namespace), None), now_ms) is None,
            },
    {
        let key = scope_key_exec(namespace, None);
        let found = core_get(&mut self.daemonsets, &key, now_ms);
        proof {
            lemma_lookup_update_holds(
                old(self)@.daemonsets,
                key@,
                now_ms,
                |p: ResourcePayload| p is DaemonSets,
            );
        }
        match found {
            Some(payload) => match payload {
                ResourcePayload::DaemonSets(v) => Some(v),
                _ => {
                    proof {
                        assert(old(self)@.daemonsets.contains_key(key@));
                        assert(false);
                    }
                    None
                },
            },
            None => None,
        }
    }

    /// Stores the daemonsets for the scope under a fresh entry stamped at
    /// `now_ms` with the cache's TTL, replacing what was there.
    pub fn set_daemonsets(&mut self, namespace: Option<&str>, data: Vec<DaemonSetInfo>, now_ms: u64)
        requires
            old(self).wf(),
        ensures
            final(self).wf(),
            final(self)@ == (CacheModel {
                daemonsets: old(self)@.daemonsets.insert(
                    scope_key(opt_view(namespace), None),
                    entry_of(ResourcePayload::DaemonSets(data), old(self)@.default_ttl_ms, now_ms),
                ),
                ..old(self)@
            }),
    {
        let key = scope_key_exec(namespace, None);
        let entry = CacheEntry::new(ResourcePayload::DaemonSets(data), self.default_ttl_ms, now_ms);
        proof {
            assert(entry == entry_of(entry.spec_data(), old(self)@.default_ttl_ms, now_ms));
            lemma_insert_holds(
                old(self)@.daemonsets,
                key@,
                entry,
                |p: ResourcePayload| p is DaemonSets,
            );
        }
        dash_insert(&mut self.daemonsets, key, entry);
    }

    /// The cached configmaps under the scope, when present and fresh at
    /// `now_ms`; a stale entry found by the read is removed.
    pub fn get_configmaps(&mut self, namespace: Option<&str>, now_ms: u64) -> (r: Option<Vec<ConfigMapInfo>>)
        requires
            old(self).wf(),
        ensures
            final(self).wf(),
            final(self)@ == (CacheModel {
                configmaps: lookup_update(old(self)@.configmaps, scope_key(opt_view(namespace), None), now_ms),
                ..old(self)@
            }),
            match r {
                Some(v) => cache_lookup(old(self)@.configmaps, scope_key(opt_view(namespace), None), now_ms) == Some(
                    ResourcePayload::ConfigMaps(v),
                ),
                None => cache_lookup(old(self)@.configmaps, scope_key(opt_view(namespace), None), now_ms) is None,
            },
    {
        let key = scope_key_exec(namespace, None);
        let found = core_get(&mut self.configmaps, &key, now_ms);
        proof {
            lemma_lookup_update_holds(
                old(self)@.configmaps,
                key@,
                now_ms,
                |p: ResourcePayload| p is ConfigMaps,
            );
        }
        match found {
            Some(payload) => match payload {
                ResourcePayload::ConfigMaps(v) => Some(v),
                _ => {
                    proof {
                        assert(old(self)@.configmaps.contains_key(key@));
                        assert(false);
                    }
                    None
                },
            },
            None => None,
        }
    }

    /// Stores the configmaps for the scope under a fresh entry stamped at
    /// `now_ms` with the cache's TTL, replacing what was there.
    pub fn set_configmaps(&mut self, namespace: Option<&str>, data: Vec<ConfigMapInfo>, now_ms: u64)
        requires
            old(self).wf(),
        ensures
            final(self).wf(),
            final(self)@ == (CacheModel {
                configmaps: old(self)@.configmaps.insert(
                    scope_key(opt_view(namespace), None),
                    entry_of(ResourcePayload::ConfigMaps(data), old(self)@.default_ttl_ms, now_ms),
                ),
                ..old(self)@
            }),
    {
        let key = scope_key_exec(namespace, None);
        let entry = CacheEntry::new(ResourcePayload::ConfigMaps(data), self.default_ttl_ms, now_ms);
        proof {
            assert(entry == entry_of(entry.spec_data(), old(self)@.default_ttl_ms, now_ms));
            lemma_insert_holds(
                old(self)@.configmaps,
                key@,
                entry,
                |p: ResourcePayload| p is ConfigMaps,
            );
        }
        dash_insert(&mut self.configmaps, key, entry);
    }

    /// The cached secrets under the scope, when present and fresh at
    /// `now_ms`; a stale entry found by the read is removed.
    pub fn get_secrets(&mut self, namespace: Option<&str>, now_ms: u64) -> (r: Option<Vec<SecretInfo>>)
        requires
            old(self).wf(),
        ensures
            final(self).wf(),
            final(self)@ == (CacheModel {
                secrets: lookup_update(old(self)@.secrets, scope_key(opt_view(namespace), None), now_ms),
                ..old(self)@
            }),
            match r {
                Some(v) => cache_lookup(old(self)@.secrets, scope_key(opt_view(namespace), None), now_ms) == Some(
                    ResourcePayload::Secrets(v),
                ),
                None => cache_lookup(old(self)@.secrets, scope_key(opt_view(namespace), None), now_ms) is None,
            },
    {
        let key = scope_key_exec(namespace, None);
        let found = core_get(&mut self.secrets, &key, now_ms);
        proof {
            lemma_lookup_update_holds(
                old(self)@.secrets,
                key@,
                now_ms,
                |p: ResourcePayload| p is Secrets,
            );
        }
        match found {
            Some(payload) => match payload {
                ResourcePayload::Secrets(v) => Some(v),
                _ => {
                    proof {
                        assert(old(self)@.secrets.contains_key(key@));
                        assert(false);
                    }
                    None
                },
            },
            None => None,
        }
    }

    /// Stores the secrets for the scope under a fresh entry stamped at
    /// `now_ms` with the cache's TTL, replacing what was there.
    pub fn set_secrets(&mut self, namespace: Option<&str>, data: Vec<SecretInfo>, now_ms: u64)
        requires
            old(self).wf(),
        ensures
            final(self).wf(),
            final(self)@ == (CacheModel {
                secrets: old(self)@.secrets.insert(
                    scope_key(opt_view(namespace), None),
                    entry_of(ResourcePayload::Secrets(data), old(self)@.default_ttl_ms, now_ms),
                ),
                ..old(self)@
            }),
    {
        let key = scope_key_exec(namespace, None);
        let entry = CacheEntry::new(ResourcePayload::Secrets(data), self.default_ttl_ms, now_ms);
        proof {
            assert(entry == entry_of(entry.spec_data(), old(self)@.default_ttl_ms, now_ms));
            lemma_insert_holds(
                old(self)@.secrets,
                key@,
                entry,
                |p: ResourcePayload| p is Secrets,
            );
        }
        dash_insert(&mut self.secrets, key, entry);
    }

    /// The cached crds under the scope, when present and fresh at
    /// `now_ms`; a stale entry found by the read is removed.
    pub fn get_crds(&mut self, now_ms: u64) -> (r: Option<Vec<CRDInfo>>)
        requires
            old(self).wf(),
        ensures
            final(self).wf(),
            final(self)@ == (CacheModel {
                crds: lookup_update(old(self)@.crds, "all"@, now_ms),
                ..old(self)@
            }),
            match r {
                Some(v) => cache_lookup(old(self)@.crds, "all"@, now_ms) == Some(
                    ResourcePayload::Crds(v),
                ),
                None => cache_lookup(old(self)@.crds, "all"@, now_ms) is None,
            },
    {
        let key = "all".to_owned();
        let found = core_get(&mut self.crds, &key, now_ms);
        proof {
            lemma_lookup_update_holds(
                old(self)@.crds,
                key@,
                now_ms,
                |p: ResourcePayload| p is Crds,
            );
        }
        match found {
            Some(payload) => match payload {
                ResourcePayload::Crds(v) => Some(v),
                _ => {
                    proof {
                        assert(old(self)@.crds.contains_key(key@));
                        assert(false);
                    }
                    None
                },
            },
            None => None,
        }
    }

    /// Stores the crds for the scope under a fresh entry stamped at
    /// `now_ms` with the cache's TTL, replacing what was there.
    pub fn set_crds(&mut self, data: Vec<CRDInfo>, now_ms: u64)
        requires
            old(self).wf(),
        ensures
            final(self).wf(),
            final(self)@ == (CacheModel {
                crds: old(self)@.crds.insert(
                    "all"@,
                    entry_of(ResourcePayload::Crds(data), old(self)@.default_ttl_ms, now_ms),
                ),
                ..old(self)@
            }),
    {
        let key = "all".to_owned();
        let entry = CacheEntry::new(ResourcePayload::Crds(data), self.default_ttl_ms, now_ms);
        proof {
            assert(entry == entry_of(entry.spec_data(), old(self)@.default_ttl_ms, now_ms));
            lemma_insert_holds(
                old(self)@.crds,
                key@,
                entry,
                |p: ResourcePayload| p is Crds,
            );
        }
        dash_insert(&mut self.crds, key, entry);
    }

    /// The cached custom_resources under the scope, when present and fresh at
    /// `now_ms`; a stale entry found by the read is removed.
    pub fn get_custom_resources(&mut self, crd_name: &str, namespace: Option<&str>, now_ms: u64) -> (r: Option<Vec<CustomResourceInfo>>)
        requires
            old(self).wf(),
        ensures
            final(self).wf(),
            final(self)@ == (CacheModel {
                custom_resources: lookup_update(old(self)@.custom_resources, custom_scope_key(crd_name@, opt_view(namespace)), now_ms),
                ..old(self)@
            }),
            match r {
                Some(v) => cache_lookup(old(self)@.custom_resources, custom_scope_key(crd_name@, opt_view(namespace)), now_ms) == Some(
                    ResourcePayload::CustomResources(v),
                ),
                None => cache_lookup(old(self)@.custom_resources, custom_scope_key(crd_name@, opt_view(namespace)), now_ms) is None,
            },
    {
        let mut key = crd_name.to_owned();
        key.append(":");
        let tail = scope_key_exec(namespace, None);
        key.append(tail.as_str());
        let found = core_get(&mut self.custom_resources, &key, now_ms);
        proof {
            lemma_lookup_update_holds(
                old(self)@.custom_resources,
                key@,
                now_ms,
                |p: ResourcePayload| p is CustomResources,
            );
        }
        match found {
            Some(payload) => match payload {
                ResourcePayload::CustomResources(v) => Some(v),
                _ => {
                    proof {
                        assert(old(self)@.custom_resources.contains_key(key@));
                        assert(false);
                    }
                    None
                },
            },
            None => None,
        }
    }

    /// Stores the custom_resources for the scope under a fresh entry stamped at
    /// `now_ms` with the cache's TTL, replacing what was there.
    pub fn set_custom_resources(&mut self, crd_name: &str, namespace: Option<&str>, data: Vec<CustomResourceInfo>, now_ms: u64)
        requires
            old(self).wf(),
        ensures
            final(self).wf(),
            final(self)@ == (CacheModel {
                custom_resources: old(self)@.custom_resources.insert(
                    custom_scope_key(crd_name@, opt_view(namespace)),
                    entry_of(ResourcePayload::CustomResources(data), old(self)@.default_ttl_ms, now_ms),
                ),
                ..old(self)@
            }),
    {
        let mut key = crd_name.to_owned();
        key.append(":");
        let tail = scope_key_exec(namespace, None);
        key.append(tail.as_str());
        let entry = CacheEntry::new(ResourcePayload::CustomResources(data), self.default_ttl_ms, now_ms);
        proof {
            assert(entry == entry_of(entry.spec_data(), old(self)@.default_ttl_ms, now_ms));
            lemma_insert_holds(
                old(self)@.custom_resources,
                key@,
                entry,
                |p: ResourcePayload| p is CustomResources,
            );
        }
        dash_insert(&mut self.custom_resources, key, entry);
    }

    /// Removes every entry of every kind; the TTL setting stays.
    pub fn clear(&mut self)
        requires
            old(self).wf(),
        ensures
            final(self).wf(),
            final(self)@ == (CacheModel {
            services: empty_kind_map(),
            pods: empty_kind_map(),
            deployments: empty_kind_map(),
            statefulsets: empty_kind_map(),
            daemonsets: empty_kind_map(),
            configmaps: empty_kind_map(),
            secrets: empty_kind_map(),
            crds: empty_kind_map(),
            custom_resources: empty_kind_map(),
                default_ttl_ms: old(self)@.default_ttl_ms,
            }),
    {
        dash_clear(&mut self.services);
        dash_clear(&mut self.pods);
        dash_clear(&mut self.deployments);
        dash_clear(&mut self.statefulsets);
        dash_clear(&mut self.daemonsets);
        dash_clear(&mut self.configmaps);
        dash_clear(&mut self.secrets);
        dash_clear(&mut self.crds);
        dash_clear(&mut self.custom_resources);
        proof {
            lemma_empty_holds(|p: ResourcePayload| p is Services);
            lemma_empty_holds(|p: ResourcePayload| p is Pods);
            lemma_empty_holds(|p: ResourcePayload| p is Deployments);
            lemma_empty_holds(|p: ResourcePayload| p is StatefulSets);
            lemma_empty_holds(|p: ResourcePayload| p is DaemonSets);
            lemma_empty_holds(|p: ResourcePayload| p is ConfigMaps);
            lemma_empty_holds(|p: ResourcePayload| p is Secrets);
            lemma_empty_holds(|p: ResourcePayload| p is Crds);
            lemma_empty_holds(|p: ResourcePayload| p is CustomResources);
        }
    }

    /// Sweeps every kind's map, removing exactly the entries whose age at
    /// `now_ms` exceeds their TTL and leaving fresh entries untouched.
    pub fn cleanup_expired(&mut self, now_ms: u64)
        requires
            old(self).wf(),
        ensures
            final(self).wf(),
            final(self)@ == (CacheModel {
                services: sweep_update(old(self)@.services, now_ms),
                pods: sweep_update(old(self)@.pods, now_ms),
                deployments: sweep_update(old(self)@.deployments, now_ms),
                statefulsets: sweep_update(old(self)@.statefulsets, now_ms),
                daemonsets: sweep_update(old(self)@.daemonsets, now_ms),
                configmaps: sweep_update(old(self)@.configmaps, now_ms),
                secrets: sweep_update(old(self)@.secrets, now_ms),
                crds: sweep_update(old(self)@.crds, now_ms),
                custom_resources: sweep_update(old(self)@.custom_resources, now_ms),
                default_ttl_ms: old(self)@.default_ttl_ms,
            }),
    {
        let ghost pre_services = self@.services;
        dash_retain_fresh(&mut self.services, now_ms);
        proof {
            lemma_sweep_holds(pre_services, now_ms, |p: ResourcePayload| p is Services);
            assert forall|k: Seq<char>| #[trigger] self@.services.contains_key(k) <==> sweep_update(
                pre_services,
                now_ms,
            ).contains_key(k) by {
                lemma_sweep_removes_only_expired(pre_services, now_ms, k);
            }
            assert forall|k: Seq<char>| self@.services.contains_key(k) implies #[trigger] self@.services[k]
                == sweep_update(pre_services, now_ms)[k] by {
                lemma_sweep_removes_only_expired(pre_services, now_ms, k);
            }
            assert(self@.services =~= sweep_update(pre_services, now_ms));
        }
        let ghost pre_pods = self@.pods;
        dash_retain_fresh(&mut self.pods, now_ms);
        proof {
            lemma_sweep_holds(pre_pods, now_ms, |p: ResourcePayload| p is Pods);
            assert forall|k: Seq<char>| #[trigger] self@.pods.contains_key(k) <==> sweep_update(
                pre_pods,
                now_ms,
            ).contains_key(k) by {
                lemma_sweep_removes_only_expired(pre_pods, now_ms, k);
            }
            assert forall|k: Seq<char>| self@.pods.contains_key(k) implies #[trigger] self@.pods[k]
                == sweep_update(pre_pods, now_ms)[k] by {
                lemma_sweep_removes_only_expired(pre_pods, now_ms, k);
            }
            assert(self@.pods =~= sweep_update(pre_pods, now_ms));
        }
        let ghost pre_deployments = self@.deployments;
        dash_retain_fresh(&mut self.deployments, now_ms);
        proof {
            lemma_sweep_holds(pre_deployments, now_ms, |p: ResourcePayload| p is Deployments);
            assert forall|k: Seq<char>| #[trigger] self@.deployments.contains_key(k) <==> sweep_update(
                pre_deployments,
                now_ms,
            ).contains_key(k) by {
                lemma_sweep_removes_only_expired(pre_deployments, now_ms, k);
            }
            assert forall|k: Seq<char>| self@.deployments.contains_key(k) implies #[trigger] self@.deployments[k]
                == sweep_update(pre_deployments, now_ms)[k] by {
                lemma_sweep_removes_only_expired(pre_deployments, now_ms, k);
            }
            assert(self@.deployments =~= sweep_update(pre_deployments, now_ms));
        }
        let ghost pre_statefulsets = self@.statefulsets;
        dash_retain_fresh(&mut self.statefulsets, now_ms);
        proof {
            lemma_sweep_holds(pre_statefulsets, now_ms, |p: ResourcePayload| p is StatefulSets);
            assert forall|k: Seq<char>| #[trigger] self@.statefulsets.contains_key(k) <==> sweep_update(
                pre_statefulsets,
                now_ms,
            ).contains_key(k) by {
                lemma_sweep_removes_only_expired(pre_statefulsets, now_ms, k);
            }
            assert forall|k: Seq<char>| self@.statefulsets.contains_key(k) implies #[trigger] self@.statefulsets[k]
                == sweep_update(pre_statefulsets, now_ms)[k] by {
                lemma_sweep_removes_only_expired(pre_statefulsets, now_ms, k);
            }
            assert(self@.statefulsets =~= sweep_update(pre_statefulsets, now_ms));
        }
        let ghost pre_daemonsets = self@.daemonsets;
        dash_retain_fresh(&mut self.daemonsets, now_ms);
        proof {
            lemma_sweep_holds(pre_daemonsets, now_ms, |p: ResourcePayload| p is DaemonSets);
            assert forall|k: Seq<char>| #[trigger] self@.daemonsets.contains_key(k) <==> sweep_update(
                pre_daemonsets,
                now_ms,
            ).contains_key(k) by {
                lemma_sweep_removes_only_expired(pre_daemonsets, now_ms, k);
            }
            assert forall|k: Seq<char>| self@.daemonsets.contains_key(k) implies #[trigger] self@.daemonsets[k]
                == sweep_update(pre_daemonsets, now_ms)[k] by {
                lemma_sweep_removes_only_expired(pre_daemonsets, now_ms, k);
            }
            assert(self@.daemonsets =~= sweep_update(pre_daemonsets, now_ms));
        }
        let ghost pre_configmaps = self@.configmaps;
        dash_retain_fresh(&mut self.configmaps, now_ms);
        proof {
            lemma_sweep_holds(pre_configmaps, now_ms, |p: ResourcePayload| p is ConfigMaps);
            assert forall|k: Seq<char>| #[trigger] self@.configmaps.contains_key(k) <==> sweep_update(
                pre_configmaps,
                now_ms,
            ).contains_key(k) by {
                lemma_sweep_removes_only_expired(pre_configmaps, now_ms, k);
            }
            assert forall|k: Seq<char>| self@.configmaps.contains_key(k) implies #[trigger] self@.configmaps[k]
                == sweep_update(pre_configmaps, now_ms)[k] by {
                lemma_sweep_removes_only_expired(pre_configmaps, now_ms, k);
            }
            assert(self@.configmaps =~= sweep_update(pre_configmaps, now_ms));
        }
        let ghost pre_secrets = self@.secrets;
        dash_retain_fresh(&mut self.secrets, now_ms);
        proof {
            lemma_sweep_holds(pre_secrets, now_ms, |p: ResourcePayload| p is Secrets);
            assert forall|k: Seq<char>| #[trigger] self@.secrets.contains_key(k) <==> sweep_update(
                pre_secrets,
                now_ms,
            ).contains_key(k) by {
                lemma_sweep_removes_only_expired(pre_secrets, now_ms, k);
            }
            assert forall|k: Seq<char>| self@.secrets.contains_key(k) implies #[trigger] self@.secrets[k]
                == sweep_update(pre_secrets, now_ms)[k] by {
                lemma_sweep_removes_only_expired(pre_secrets, now_ms, k);
            }
            assert(self@.secrets =~= sweep_update(pre_secrets, now_ms));
        }
        let ghost pre_crds = self@.crds;
        dash_retain_fresh(&mut self.crds, now_ms);
        proof {
            lemma_sweep_holds(pre_crds, now_ms, |p: ResourcePayload| p is Crds);
            assert forall|k: Seq<char>| #[trigger] self@.crds.contains_key(k) <==> sweep_update(
                pre_crds,
                now_ms,
            ).contains_key(k) by {
                lemma_sweep_removes_only_expired(pre_crds, now_ms, k);
            }
            assert forall|k: Seq<char>| self@.crds.contains_key(k) implies #[trigger] self@.crds[k]
                == sweep_update(pre_crds, now_ms)[k] by {
                lemma_sweep_removes_only_expired(pre_crds, now_ms, k);
            }
            assert(self@.crds =~= sweep_update(pre_crds, now_ms));
        }
        let ghost pre_custom_resources = self@.custom_resources;
        dash_retain_fresh(&mut self.custom_resources, now_ms);
        proof {
            lemma_sweep_holds(pre_custom_resources, now_ms, |p: ResourcePayload| p is CustomResources);
            assert forall|k: Seq<char>| #[trigger] self@.custom_resources.contains_key(k) <==> sweep_update(
                pre_custom_resources,
                now_ms,
            ).contains_key(k) by {
                lemma_sweep_removes_only_expired(pre_custom_resources, now_ms, k);
            }
            assert forall|k: Seq<char>| self@.custom_resources.contains_key(k) implies #[trigger] self@.custom_resources[k]
                == sweep_update(pre_custom_resources, now_ms)[k] by {
                lemma_sweep_removes_only_expired(pre_custom_resources, now_ms, k);
            }
            assert(self@.custom_resources =~= sweep_update(pre_custom_resources, now_ms));
        }
    }

    /// A read-only snapshot of per-kind entry counts and the TTL.
    pub fn stats(&self) -> (r: CacheStats)
        requires
            self.wf(),
        ensures
            r.services_entries == self@.services.dom().len(),
            r.pods_entries == self@.pods.dom().len(),
            r.deployments_entries == self@.deployments.dom().len(),
            r.statefulsets_entries == self@.statefulsets.dom().len(),
            r.daemonsets_entries == self@.daemonsets.dom().len(),
            r.configmaps_entries == self@.configmaps.dom().len(),
            r.secrets_entries == self@.secrets.dom().len(),
            r.crds_entries == self@.crds.dom().len(),
            r.custom_resources_entries == self@.custom_resources.dom().len(),
            r.default_ttl_ms == self@.default_ttl_ms,
    {
        CacheStats {
            services_entries: dash_len(&self.services),
            pods_entries: dash_len(&self.pods),
            deployments_entries: dash_len(&self.deployments),
            statefulsets_entries: dash_len(&self.statefulsets),
            daemonsets_entries: dash_len(&self.daemonsets),
            configmaps_entries: dash_len(&self.configmaps),
            secrets_entries: dash_len(&self.secrets),
            crds_entries: dash_len(&self.crds),
            custom_resources_entries: dash_len(&self.custom_resources),
            default_ttl_ms: self.default_ttl_ms,
        }
    }
}

/// Per-kind entry counts and the configured TTL, for diagnostics.
#[derive(Debug, Clone)]
pub struct CacheStats {
    pub services_entries: usize,
    pub pods_entries: usize,
    pub deployments_entries: usize,
    pub statefulsets_entries: usize,
    pub daemonsets_entries: usize,
    pub configmaps_entries: usize,
    pub secrets_entries: usize,
    pub crds_entries: usize,
    pub custom_resources_entries: usize,
    pub default_ttl_ms: u64,
}

impl CacheStats {
    /// The sum of the per-kind counts.
    pub open spec fn total(&self) -> int {
        self.services_entries as int + self.pods_entries as int + self.deployments_entries as int + self.statefulsets_entries as int + self.daemonsets_entries as int + self.configmaps_entries as int + self.secrets_entries as int + self.crds_entries as int + self.custom_resources_entries as int
    }

    pub fn total_entries(&self) -> (r: usize)
        requires
            self.total() <= usize::MAX,
        ensures
            r == self.total(),
    {
        self.services_entries + self.pods_entries + self.deployments_entries + self.statefulsets_entries + self.daemonsets_entries + self.configmaps_entries + self.secrets_entries + self.crds_entries + self.custom_resources_entries
    }
}

} // verus!
