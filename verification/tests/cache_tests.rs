use kdx::cache::{CacheEntry, ResourceCache};
use kdx::labels::LabelMap;
use kdx::resources::{CRDInfo, CustomResourceInfo, ServiceInfo};

fn create_test_service() -> ServiceInfo {
    ServiceInfo {
        name: "test-service".to_string(),
        namespace: "default".to_string(),
        service_type: "ClusterIP".to_string(),
        cluster_ip: Some("10.0.0.1".to_string()),
        ports: vec![],
        selector: Some(LabelMap::new()),
    }
}

#[test]
fn test_cache_entry_freshness() {
    let entry = CacheEntry::new(vec![create_test_service()], 1000, 5000);
    assert!(!entry.is_expired(5000));
    assert!(!entry.is_expired(6000)); // exactly the TTL is still fresh
    assert!(entry.is_expired(6001));
    assert!(!entry.is_expired(100)); // an instant before insertion is not stale
    assert_eq!(entry.data().len(), 1);
}

#[test]
fn test_cache_roundtrip() {
    let mut cache = ResourceCache::new(300_000);
    let services = vec![create_test_service()];

    // miss before any store
    assert!(cache.get_services(Some("default"), None, 1_000).is_none());

    cache.set_services(Some("default"), None, services.clone(), 1_000);
    let cached = cache.get_services(Some("default"), None, 1_000);
    assert!(cached.is_some());
    let cached = cached.unwrap();
    assert_eq!(cached.len(), 1);
    assert_eq!(cached[0].name, "test-service");

    let stats = cache.stats();
    assert_eq!(stats.services_entries, 1);
    assert_eq!(stats.total_entries(), 1);
    assert_eq!(stats.default_ttl_ms, 300_000);
}

#[test]
fn test_cache_expiry_on_read() {
    let mut cache = ResourceCache::new(1_000);
    cache.set_services(Some("default"), None, vec![create_test_service()], 0);

    assert!(cache.get_services(Some("default"), None, 500).is_some());
    // after the TTL has elapsed the read refuses and removes the entry
    assert!(cache.get_services(Some("default"), None, 1_501).is_none());
    assert_eq!(cache.stats().services_entries, 0);
}

#[test]
fn test_cache_scopes_are_independent() {
    let mut cache = ResourceCache::new(300_000);
    cache.set_services(Some("alpha"), None, vec![create_test_service()], 0);
    cache.set_services(Some("alpha"), Some("app=web"), vec![], 0);
    cache.set_services(None, Some("app=web"), vec![], 0);
    cache.set_services(None, None, vec![], 0);

    assert_eq!(cache.stats().services_entries, 4);
    assert_eq!(
        cache.get_services(Some("alpha"), None, 10).unwrap().len(),
        1
    );
    assert_eq!(
        cache
            .get_services(Some("alpha"), Some("app=web"), 10)
            .unwrap()
            .len(),
        0
    );
    assert!(cache.get_services(Some("beta"), None, 10).is_none());
}

#[test]
fn test_cache_set_replaces() {
    let mut cache = ResourceCache::new(300_000);
    cache.set_pods(Some("default"), None, vec![], 0);
    assert_eq!(cache.get_pods(Some("default"), None, 10).unwrap().len(), 0);
    assert_eq!(cache.stats().pods_entries, 1);
}

#[test]
fn test_cache_cleanup() {
    let mut cache = ResourceCache::new(1_000);
    cache.set_services(Some("old"), None, vec![create_test_service()], 0);
    cache.set_services(Some("new"), None, vec![create_test_service()], 5_500);
    cache.set_pods(Some("old"), None, vec![], 0);
    assert_eq!(cache.stats().services_entries, 2);
    assert_eq!(cache.stats().pods_entries, 1);

    // at 6 200 the entries stamped at 0 have outlived their 1 000 ms TTL;
    // the one stamped at 5 500 has not
    cache.cleanup_expired(6_200);
    let stats = cache.stats();
    assert_eq!(stats.services_entries, 1);
    assert_eq!(stats.pods_entries, 0);
    assert!(cache.get_services(Some("new"), None, 6_200).is_some());
    assert!(cache.get_services(Some("old"), None, 6_200).is_none());
}

#[test]
fn test_cache_clear() {
    let mut cache = ResourceCache::new(300_000);
    cache.set_services(Some("default"), None, vec![create_test_service()], 0);
    cache.set_configmaps(Some("default"), vec![], 0);
    cache.set_secrets(Some("default"), vec![], 0);
    assert_eq!(cache.stats().total_entries(), 3);

    cache.clear();
    assert_eq!(cache.stats().total_entries(), 0);
    assert_eq!(cache.stats().default_ttl_ms, 300_000);
    assert!(cache.get_services(Some("default"), None, 1).is_none());
}

#[test]
fn test_cache_kinds_are_independent() {
    let mut cache = ResourceCache::new(300_000);
    cache.set_deployments(Some("default"), vec![], 0);
    cache.set_statefulsets(Some("default"), vec![], 0);
    cache.set_daemonsets(Some("default"), vec![], 0);

    let stats = cache.stats();
    assert_eq!(stats.deployments_entries, 1);
    assert_eq!(stats.statefulsets_entries, 1);
    assert_eq!(stats.daemonsets_entries, 1);
    assert_eq!(stats.services_entries, 0);
    assert!(cache.get_deployments(Some("default"), 1).is_some());
    assert!(cache.get_deployments(None, 1).is_none());
}

#[test]
fn test_cache_crds_fixed_scope() {
    let mut cache = ResourceCache::new(300_000);
    assert!(cache.get_crds(0).is_none());
    let crds = vec![CRDInfo {
        name: "widgets.example.com".to_string(),
        group: "example.com".to_string(),
        version: "v1".to_string(),
        kind: "Widget".to_string(),
        namespaced: true,
    }];
    cache.set_crds(crds, 0);
    let got = cache.get_crds(10).unwrap();
    assert_eq!(got.len(), 1);
    assert_eq!(got[0].kind, "Widget");
}

#[test]
fn test_cache_custom_resources_compound_key() {
    let mut cache = ResourceCache::new(300_000);
    let item = CustomResourceInfo {
        name: "w1".to_string(),
        namespace: "default".to_string(),
        kind: "Widget".to_string(),
        age: "1d".to_string(),
    };
    cache.set_custom_resources("widgets.example.com", Some("default"), vec![item], 0);
    assert!(cache
        .get_custom_resources("widgets.example.com", Some("default"), 10)
        .is_some());
    // a different definition or scope is a different key
    assert!(cache
        .get_custom_resources("gadgets.example.com", Some("default"), 10)
        .is_none());
    assert!(cache
        .get_custom_resources("widgets.example.com", None, 10)
        .is_none());
}
