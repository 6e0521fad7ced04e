use kdx::filtering::{FilterCriteria, ResourceFilter};
use kdx::labels::LabelMap;
use kdx::resources::{
    ConfigMapInfo, DeploymentInfo, PodInfo, ReferenceType, ResourceReference, SecretInfo,
    ServiceInfo,
};

fn make_pod(name: &str, phase: &str, labels: LabelMap) -> PodInfo {
    PodInfo {
        name: name.to_string(),
        namespace: "default".to_string(),
        phase: phase.to_string(),
        pod_ip: None,
        node_name: None,
        labels,
        ready_containers: 0,
        total_containers: 0,
        restart_count: 0,
        age: "Unknown".to_string(),
    }
}

fn make_deployment(name: &str, replicas: i32, ready: i32, labels: LabelMap) -> DeploymentInfo {
    DeploymentInfo {
        name: name.to_string(),
        namespace: "default".to_string(),
        replicas,
        ready_replicas: ready,
        available_replicas: ready,
        strategy: "RollingUpdate".to_string(),
        age: "1d".to_string(),
        labels,
        selector: LabelMap::new(),
    }
}

#[test]
fn test_filter_criteria_default() {
    let criteria = FilterCriteria::default();
    assert!(criteria.label_selector.is_none());
    assert!(criteria.status_filter.is_none());
    assert!(criteria.newer_than.is_none());
    assert!(criteria.older_than.is_none());
    assert!(criteria.include_types.is_empty());
    assert!(criteria.exclude_types.is_empty());
}

#[test]
fn test_filter_configmaps() {
    let mut labels = LabelMap::new();
    labels.insert("app".to_string(), "web".to_string());
    labels.insert("tier".to_string(), "frontend".to_string());

    let configmap = ConfigMapInfo {
        name: "web-config".to_string(),
        namespace: "default".to_string(),
        data_keys: vec!["config.yaml".to_string()],
        age: "5d".to_string(),
        labels,
        used_by: vec![ResourceReference {
            kind: "Pod".to_string(),
            name: "web-pod".to_string(),
            namespace: "default".to_string(),
            reference_type: ReferenceType::VolumeMount,
        }],
        mount_paths: vec!["/etc/config".to_string()],
    };

    let configmaps = vec![configmap];

    // Test label selector filtering
    let criteria = FilterCriteria {
        label_selector: Some("app=web".to_string()),
        ..Default::default()
    };
    let filtered = ResourceFilter::filter_configmaps(configmaps.clone(), &criteria);
    assert_eq!(filtered.len(), 1);

    // Test label selector that doesn't match
    let criteria = FilterCriteria {
        label_selector: Some("app=api".to_string()),
        ..Default::default()
    };
    let filtered = ResourceFilter::filter_configmaps(configmaps, &criteria);
    assert_eq!(filtered.len(), 0);
}

#[test]
fn test_filter_secrets() {
    let mut labels = LabelMap::new();
    labels.insert("app".to_string(), "database".to_string());

    let secret = SecretInfo {
        name: "db-secret".to_string(),
        namespace: "default".to_string(),
        secret_type: "Opaque".to_string(),
        data_keys: vec!["password".to_string(), "username".to_string()],
        age: "10d".to_string(),
        labels,
        used_by: vec![ResourceReference {
            kind: "Pod".to_string(),
            name: "db-pod".to_string(),
            namespace: "default".to_string(),
            reference_type: ReferenceType::Environment,
        }],
        mount_paths: vec![],
    };

    let secrets = vec![secret];

    // Test label selector filtering
    let criteria = FilterCriteria {
        label_selector: Some("app=database".to_string()),
        ..Default::default()
    };
    let filtered = ResourceFilter::filter_secrets(secrets.clone(), &criteria);
    assert_eq!(filtered.len(), 1);

    // Test label selector that doesn't match
    let criteria = FilterCriteria {
        label_selector: Some("app=web".to_string()),
        ..Default::default()
    };
    let filtered = ResourceFilter::filter_secrets(secrets, &criteria);
    assert_eq!(filtered.len(), 0);
}

#[test]
fn test_filter_pods_by_status() {
    let mut web = LabelMap::new();
    web.insert("app".to_string(), "web".to_string());
    let pods = vec![
        make_pod("a", "Running", web.clone()),
        make_pod("b", "Pending", web.clone()),
        make_pod("c", "Running", LabelMap::new()),
    ];
    let criteria = FilterCriteria {
        status_filter: Some("Running".to_string()),
        ..Default::default()
    };
    let filtered = ResourceFilter::filter_pods(pods, &criteria);
    assert_eq!(filtered.len(), 2);
    assert_eq!(filtered[0].name, "a");
    assert_eq!(filtered[1].name, "c");
}

#[test]
fn test_deployment_status_ready() {
    let criteria = FilterCriteria {
        status_filter: Some("Ready".to_string()),
        ..Default::default()
    };
    let d = make_deployment("d", 3, 3, LabelMap::new());
    assert!(ResourceFilter::matches_deployment_criteria(&d, &criteria));
    let d = make_deployment("d", 3, 2, LabelMap::new());
    assert!(!ResourceFilter::matches_deployment_criteria(&d, &criteria));
}

#[test]
fn test_deployment_status_not_ready() {
    let criteria = FilterCriteria {
        status_filter: Some("NotReady".to_string()),
        ..Default::default()
    };
    let d = make_deployment("d", 3, 0, LabelMap::new());
    assert!(ResourceFilter::matches_deployment_criteria(&d, &criteria));
    let d = make_deployment("d", 3, 1, LabelMap::new());
    assert!(!ResourceFilter::matches_deployment_criteria(&d, &criteria));
}

#[test]
fn test_deployment_status_partially_ready() {
    let criteria = FilterCriteria {
        status_filter: Some("PartiallyReady".to_string()),
        ..Default::default()
    };
    let d = make_deployment("d", 3, 1, LabelMap::new());
    assert!(ResourceFilter::matches_deployment_criteria(&d, &criteria));
    let d = make_deployment("d", 3, 3, LabelMap::new());
    assert!(!ResourceFilter::matches_deployment_criteria(&d, &criteria));
}

#[test]
fn test_unparsable_selector_is_swallowed() {
    // A selector string that does not parse leaves the check passing.
    let criteria = FilterCriteria {
        label_selector: Some("app=".to_string()),
        ..Default::default()
    };
    let pod = make_pod("a", "Running", LabelMap::new());
    assert!(ResourceFilter::matches_pod_criteria(&pod, &criteria));
}

#[test]
fn test_service_without_selector_fails_selector_check() {
    let service = ServiceInfo {
        name: "svc".to_string(),
        namespace: "default".to_string(),
        ports: vec![],
        cluster_ip: None,
        service_type: "ClusterIP".to_string(),
        selector: None,
    };
    let criteria = FilterCriteria {
        label_selector: Some("app=web".to_string()),
        ..Default::default()
    };
    assert!(!ResourceFilter::matches_criteria(&service, &criteria));

    let no_criteria = FilterCriteria::default();
    assert!(ResourceFilter::matches_criteria(&service, &no_criteria));
}

#[test]
fn test_filter_services_keeps_order() {
    let mut web = LabelMap::new();
    web.insert("app".to_string(), "web".to_string());
    let mk = |name: &str, sel: Option<LabelMap>| ServiceInfo {
        name: name.to_string(),
        namespace: "default".to_string(),
        ports: vec![],
        cluster_ip: None,
        service_type: "ClusterIP".to_string(),
        selector: sel,
    };
    let services = vec![
        mk("one", Some(web.clone())),
        mk("two", None),
        mk("three", Some(web.clone())),
    ];
    let criteria = FilterCriteria {
        label_selector: Some("app=web".to_string()),
        ..Default::default()
    };
    let filtered = ResourceFilter::filter_services(services, &criteria);
    assert_eq!(filtered.len(), 2);
    assert_eq!(filtered[0].name, "one");
    assert_eq!(filtered[1].name, "three");
}
