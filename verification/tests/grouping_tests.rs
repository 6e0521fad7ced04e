use kdx::grouping::{GroupBy, GroupedResources, ResourceGroup, ResourceGrouper, parse_group_by};
use kdx::labels::LabelMap;
use kdx::resources::{ConfigMapInfo, PodInfo, SecretInfo, ServiceInfo};

fn make_configmap(name: &str, namespace: &str, labels: LabelMap) -> ConfigMapInfo {
    ConfigMapInfo {
        name: name.to_string(),
        namespace: namespace.to_string(),
        data_keys: vec![],
        age: "1d".to_string(),
        labels,
        used_by: vec![],
        mount_paths: vec![],
    }
}

fn make_secret(name: &str, namespace: &str, secret_type: &str) -> SecretInfo {
    SecretInfo {
        name: name.to_string(),
        namespace: namespace.to_string(),
        secret_type: secret_type.to_string(),
        data_keys: vec![],
        age: "1d".to_string(),
        labels: LabelMap::new(),
        used_by: vec![],
        mount_paths: vec![],
    }
}

fn make_pod(name: &str, namespace: &str, labels: LabelMap) -> PodInfo {
    PodInfo {
        name: name.to_string(),
        namespace: namespace.to_string(),
        phase: "Running".to_string(),
        pod_ip: None,
        node_name: None,
        labels,
        ready_containers: 0,
        total_containers: 0,
        restart_count: 0,
        age: "1d".to_string(),
    }
}

fn make_service(name: &str, namespace: &str, selector: Option<LabelMap>) -> ServiceInfo {
    ServiceInfo {
        name: name.to_string(),
        namespace: namespace.to_string(),
        ports: vec![],
        cluster_ip: None,
        service_type: "ClusterIP".to_string(),
        selector,
    }
}

fn app_labels(app: &str) -> LabelMap {
    let mut labels = LabelMap::new();
    labels.insert("app".to_string(), app.to_string());
    labels
}

fn total_over(grouped: &GroupedResources) -> usize {
    let mut sum = 0;
    for i in 0..grouped.len() {
        sum += grouped.group_at(i).total_resources();
    }
    sum
}

#[test]
fn test_resource_group_creation() {
    let group = ResourceGroup::new("web-app".to_string(), "app".to_string());

    assert_eq!(group.name, "web-app");
    assert_eq!(group.group_type, "app");
    assert_eq!(group.total_resources(), 0);
    assert!(group.services.is_empty());
    assert!(group.pods.is_empty());
    assert!(group.deployments.is_empty());
}

#[test]
fn test_resource_group_total_count() {
    let mut group = ResourceGroup::new("test".to_string(), "app".to_string());

    group.services = vec![];
    group.pods = vec![];

    assert_eq!(group.total_resources(), 0);
}

#[test]
fn test_group_configmaps_by_app() {
    let configmaps = vec![
        make_configmap("web-config", "default", app_labels("web")),
        make_configmap("api-config", "default", app_labels("api")),
    ];

    let grouped = ResourceGrouper::group_configmaps(configmaps, &GroupBy::App);

    assert_eq!(grouped.len(), 2);
    assert!(grouped.contains_key("web"));
    assert!(grouped.contains_key("api"));

    let web_group = grouped.get("web").unwrap();
    assert_eq!(web_group.configmaps.len(), 1);
    assert_eq!(web_group.configmaps[0].name, "web-config");
}

#[test]
fn test_group_secrets_by_namespace() {
    let secrets = vec![
        make_secret("secret1", "default", "Opaque"),
        make_secret("secret2", "production", "kubernetes.io/tls"),
    ];

    let grouped = ResourceGrouper::group_secrets(secrets, &GroupBy::Namespace);

    assert_eq!(grouped.len(), 2);
    assert!(grouped.contains_key("default"));
    assert!(grouped.contains_key("production"));

    let prod_group = grouped.get("production").unwrap();
    assert_eq!(prod_group.secrets.len(), 1);
    assert_eq!(prod_group.secrets[0].secret_type, "kubernetes.io/tls");
}

#[test]
fn test_group_by_namespace_partition() {
    // Records spanning two namespaces yield exactly two buckets, each
    // holding exactly its namespace's records, and the totals add up.
    let services = vec![
        make_service("s1", "alpha", None),
        make_service("s2", "beta", None),
    ];
    let pods = vec![
        make_pod("p1", "alpha", LabelMap::new()),
        make_pod("p2", "alpha", LabelMap::new()),
        make_pod("p3", "beta", LabelMap::new()),
    ];
    let grouped = ResourceGrouper::group_resources(
        services,
        pods,
        vec![],
        vec![],
        vec![],
        &GroupBy::Namespace,
    );
    assert_eq!(grouped.len(), 2);
    assert!(grouped.contains_key("alpha"));
    assert!(grouped.contains_key("beta"));
    let alpha = grouped.get("alpha").unwrap();
    assert_eq!(alpha.services.len(), 1);
    assert_eq!(alpha.pods.len(), 2);
    assert_eq!(alpha.pods[0].name, "p1");
    assert_eq!(alpha.pods[1].name, "p2");
    let beta = grouped.get("beta").unwrap();
    assert_eq!(beta.services.len(), 1);
    assert_eq!(beta.pods.len(), 1);
    assert_eq!(total_over(&grouped), 5);
}

#[test]
fn test_group_by_app_missing_labels_fall_to_unknown() {
    let pods = vec![
        make_pod("p1", "default", app_labels("web")),
        make_pod("p2", "default", LabelMap::new()),
        make_pod("p3", "default", LabelMap::new()),
    ];
    let grouped = ResourceGrouper::group_resources(
        vec![],
        pods,
        vec![],
        vec![],
        vec![],
        &GroupBy::App,
    );
    assert_eq!(grouped.len(), 2);
    let unknown = grouped.get("unknown").unwrap();
    assert_eq!(unknown.pods.len(), 2);
    assert_eq!(unknown.pods[0].name, "p2");
    assert_eq!(unknown.pods[1].name, "p3");
    assert_eq!(grouped.get("web").unwrap().pods.len(), 1);
}

#[test]
fn test_group_by_helm_release_stamps_metadata() {
    let mut labels = LabelMap::new();
    labels.insert(
        "app.kubernetes.io/instance".to_string(),
        "release-a".to_string(),
    );
    let pods = vec![make_pod("p1", "default", labels)];
    let grouped = ResourceGrouper::group_resources(
        vec![],
        pods,
        vec![],
        vec![],
        vec![],
        &GroupBy::HelmRelease,
    );
    assert_eq!(grouped.len(), 1);
    let bucket = grouped.get("release-a").unwrap();
    assert_eq!(bucket.metadata.get("managed-by"), Some(&"Helm".to_string()));
    assert_eq!(bucket.group_type, "app.kubernetes.io/instance");
}

#[test]
fn test_group_none_single_bucket() {
    let services = vec![make_service("s1", "default", None)];
    let pods = vec![make_pod("p1", "default", LabelMap::new())];
    let grouped = ResourceGrouper::group_resources(
        services,
        pods,
        vec![],
        vec![],
        vec![],
        &GroupBy::NoGrouping,
    );
    assert_eq!(grouped.len(), 1);
    assert!(grouped.contains_key("all"));
    let bucket = grouped.get("all").unwrap();
    assert_eq!(bucket.name, "All Resources");
    assert_eq!(bucket.group_type, "none");
    assert_eq!(bucket.services.len(), 1);
    assert_eq!(bucket.pods.len(), 1);
    assert_eq!(total_over(&grouped), 2);
}

#[test]
fn test_group_configmaps_none_bucket() {
    let configmaps = vec![make_configmap("c1", "default", LabelMap::new())];
    let grouped = ResourceGrouper::group_configmaps(configmaps, &GroupBy::NoGrouping);
    assert_eq!(grouped.len(), 1);
    let bucket = grouped.get("all").unwrap();
    assert_eq!(bucket.name, "All ConfigMaps");
    assert_eq!(bucket.configmaps.len(), 1);
}

#[test]
fn test_group_secrets_custom_label() {
    let mut labels = LabelMap::new();
    labels.insert("team".to_string(), "storage".to_string());
    let mut secret = make_secret("s1", "default", "Opaque");
    secret.labels = labels;
    let grouped =
        ResourceGrouper::group_secrets(vec![secret], &GroupBy::CustomLabel("team".to_string()));
    assert_eq!(grouped.len(), 1);
    let bucket = grouped.get("storage").unwrap();
    assert_eq!(bucket.secrets.len(), 1);
    assert_eq!(bucket.group_type, "team");
}

#[test]
fn test_group_services_use_selector_mapping() {
    let services = vec![
        make_service("s1", "default", Some(app_labels("web"))),
        make_service("s2", "default", None),
    ];
    let grouped = ResourceGrouper::group_resources(
        services,
        vec![],
        vec![],
        vec![],
        vec![],
        &GroupBy::App,
    );
    assert_eq!(grouped.len(), 2);
    assert_eq!(grouped.get("web").unwrap().services.len(), 1);
    assert_eq!(grouped.get("unknown").unwrap().services.len(), 1);
}

#[test]
fn test_parse_group_by_tokens() {
    assert!(matches!(parse_group_by("app"), GroupBy::App));
    assert!(matches!(parse_group_by("APP"), GroupBy::App));
    assert!(matches!(parse_group_by("tier"), GroupBy::Tier));
    assert!(matches!(parse_group_by("helm"), GroupBy::HelmRelease));
    assert!(matches!(parse_group_by("Helm-Release"), GroupBy::HelmRelease));
    assert!(matches!(parse_group_by("namespace"), GroupBy::Namespace));
    assert!(matches!(parse_group_by("ns"), GroupBy::Namespace));
    assert!(matches!(parse_group_by("none"), GroupBy::NoGrouping));
    match parse_group_by("Team") {
        GroupBy::CustomLabel(k) => assert_eq!(k, "team"),
        _ => panic!("expected a custom label"),
    }
}
