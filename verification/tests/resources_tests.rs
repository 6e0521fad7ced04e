use kdx::labels::LabelMap;
use kdx::resources::{
    check_pod_configmap_references, check_pod_secret_references, cluster_ip_reachable,
    ingress_route_urls, selector_string, ConfigMapInfo, DaemonSetInfo, DeploymentInfo,
    IngressInfo, PodInfo, SecretInfo, ServiceInfo, ServicePort, StatefulSetInfo,
};

#[test]
fn test_service_info_creation() {
    let service = ServiceInfo {
        name: "test-service".to_string(),
        namespace: "default".to_string(),
        ports: vec![],
        cluster_ip: Some("10.0.0.1".to_string()),
        service_type: "ClusterIP".to_string(),
        selector: Some(LabelMap::new()),
    };

    assert_eq!(service.name, "test-service");
    assert_eq!(service.namespace, "default");
    assert_eq!(service.service_type, "ClusterIP");
    assert_eq!(service.cluster_ip, Some("10.0.0.1".to_string()));
}

#[test]
fn test_pod_info_creation() {
    let pod = PodInfo {
        name: "test-pod".to_string(),
        namespace: "default".to_string(),
        phase: "Running".to_string(),
        pod_ip: Some("10.0.0.2".to_string()),
        node_name: Some("node1".to_string()),
        labels: LabelMap::new(),
        ready_containers: 2,
        total_containers: 2,
        restart_count: 0,
        age: "1d".to_string(),
    };

    assert_eq!(pod.name, "test-pod");
    assert_eq!(pod.phase, "Running");
    assert_eq!(pod.ready_containers, 2);
    assert_eq!(pod.total_containers, 2);
    assert_eq!(pod.restart_count, 0);
}

#[test]
fn test_ingress_info_creation() {
    let ingress = IngressInfo {
        name: "test-ingress".to_string(),
        namespace: "default".to_string(),
        hosts: vec!["example.com".to_string()],
        paths: vec![],
        tls_enabled: false,
    };

    assert_eq!(ingress.name, "test-ingress");
    assert_eq!(ingress.namespace, "default");
    assert_eq!(ingress.hosts.len(), 1);
    assert!(!ingress.tls_enabled);
}

#[test]
fn test_service_port_creation() {
    let port = ServicePort {
        name: Some("http".to_string()),
        port: 80,
        target_port: "8080".to_string(),
        protocol: "TCP".to_string(),
    };

    assert_eq!(port.name, Some("http".to_string()));
    assert_eq!(port.port, 80);
    assert_eq!(port.target_port, "8080");
    assert_eq!(port.protocol, "TCP");
}

#[test]
fn test_deployment_info_creation() {
    let mut labels = LabelMap::new();
    labels.insert("app".to_string(), "web".to_string());
    labels.insert("version".to_string(), "v1.0.0".to_string());

    let mut selector = LabelMap::new();
    selector.insert("app".to_string(), "web".to_string());

    let deployment = DeploymentInfo {
        name: "test-deployment".to_string(),
        namespace: "default".to_string(),
        replicas: 3,
        ready_replicas: 2,
        available_replicas: 2,
        strategy: "RollingUpdate".to_string(),
        age: "5d".to_string(),
        labels: labels.clone(),
        selector: selector.clone(),
    };

    assert_eq!(deployment.name, "test-deployment");
    assert_eq!(deployment.namespace, "default");
    assert_eq!(deployment.replicas, 3);
    assert_eq!(deployment.ready_replicas, 2);
    assert_eq!(deployment.available_replicas, 2);
    assert_eq!(deployment.strategy, "RollingUpdate");
    assert_eq!(deployment.age, "5d");
    assert_eq!(deployment.labels.get("app"), Some(&"web".to_string()));
    assert_eq!(deployment.selector.get("app"), Some(&"web".to_string()));
}

#[test]
fn test_statefulset_info_creation() {
    let mut labels = LabelMap::new();
    labels.insert("app".to_string(), "database".to_string());

    let mut selector = LabelMap::new();
    selector.insert("app".to_string(), "database".to_string());

    let statefulset = StatefulSetInfo {
        name: "test-statefulset".to_string(),
        namespace: "default".to_string(),
        replicas: 3,
        ready_replicas: 3,
        current_replicas: 3,
        age: "10d".to_string(),
        labels: labels.clone(),
        selector: selector.clone(),
    };

    assert_eq!(statefulset.name, "test-statefulset");
    assert_eq!(statefulset.namespace, "default");
    assert_eq!(statefulset.replicas, 3);
    assert_eq!(statefulset.ready_replicas, 3);
    assert_eq!(statefulset.current_replicas, 3);
    assert_eq!(statefulset.age, "10d");
    assert_eq!(statefulset.labels.get("app"), Some(&"database".to_string()));
}

#[test]
fn test_daemonset_info_creation() {
    let mut labels = LabelMap::new();
    labels.insert("app".to_string(), "monitoring".to_string());
    labels.insert("component".to_string(), "agent".to_string());

    let mut selector = LabelMap::new();
    selector.insert("app".to_string(), "monitoring".to_string());

    let daemonset = DaemonSetInfo {
        name: "test-daemonset".to_string(),
        namespace: "kube-system".to_string(),
        desired: 5,
        current: 5,
        ready: 4,
        up_to_date: 5,
        age: "30d".to_string(),
        labels: labels.clone(),
        selector: selector.clone(),
    };

    assert_eq!(daemonset.name, "test-daemonset");
    assert_eq!(daemonset.namespace, "kube-system");
    assert_eq!(daemonset.desired, 5);
    assert_eq!(daemonset.current, 5);
    assert_eq!(daemonset.ready, 4);
    assert_eq!(daemonset.up_to_date, 5);
    assert_eq!(daemonset.age, "30d");
    assert_eq!(daemonset.labels.get("component"), Some(&"agent".to_string()));
}

#[test]
fn test_resource_info_with_empty_labels() {
    let deployment = DeploymentInfo {
        name: "minimal-deployment".to_string(),
        namespace: "default".to_string(),
        replicas: 1,
        ready_replicas: 0,
        available_replicas: 0,
        strategy: "Recreate".to_string(),
        age: "1h".to_string(),
        labels: LabelMap::new(),
        selector: LabelMap::new(),
    };

    assert!(deployment.labels.is_empty());
    assert!(deployment.selector.is_empty());
    assert_eq!(deployment.ready_replicas, 0);
}

#[test]
fn test_resource_info_with_multiple_labels() {
    let mut labels = LabelMap::new();
    labels.insert("app".to_string(), "frontend".to_string());
    labels.insert("tier".to_string(), "web".to_string());
    labels.insert("environment".to_string(), "staging".to_string());
    labels.insert("version".to_string(), "v2.1.0".to_string());

    let statefulset = StatefulSetInfo {
        name: "frontend-statefulset".to_string(),
        namespace: "staging".to_string(),
        replicas: 2,
        ready_replicas: 2,
        current_replicas: 2,
        age: "7d".to_string(),
        labels: labels.clone(),
        selector: labels.clone(),
    };

    assert_eq!(statefulset.labels.len(), 4);
    assert_eq!(statefulset.labels.get("tier"), Some(&"web".to_string()));
    assert_eq!(
        statefulset.labels.get("environment"),
        Some(&"staging".to_string())
    );
    assert_eq!(statefulset.selector.len(), 4);
}

fn make_pod(name: &str, namespace: &str) -> PodInfo {
    PodInfo {
        name: name.to_string(),
        namespace: namespace.to_string(),
        phase: "Running".to_string(),
        pod_ip: None,
        node_name: None,
        labels: LabelMap::new(),
        ready_containers: 0,
        total_containers: 0,
        restart_count: 0,
        age: "1d".to_string(),
    }
}

#[test]
fn test_check_pod_configmap_references_adds_once() {
    let pod = make_pod("web-pod", "default");
    let mut configmap = ConfigMapInfo {
        name: "web-config".to_string(),
        namespace: "default".to_string(),
        data_keys: vec![],
        age: "1d".to_string(),
        labels: LabelMap::new(),
        used_by: vec![],
        mount_paths: vec![],
    };
    check_pod_configmap_references(&pod, &mut configmap);
    assert_eq!(configmap.used_by.len(), 1);
    assert_eq!(configmap.used_by[0].kind, "Pod");
    assert_eq!(configmap.used_by[0].name, "web-pod");
    // the same pod is not recorded twice
    check_pod_configmap_references(&pod, &mut configmap);
    assert_eq!(configmap.used_by.len(), 1);
    // a pod in another namespace is not recorded
    let other = make_pod("far-pod", "elsewhere");
    check_pod_configmap_references(&other, &mut configmap);
    assert_eq!(configmap.used_by.len(), 1);
}

#[test]
fn test_check_pod_secret_references_adds_once() {
    let pod = make_pod("db-pod", "default");
    let mut secret = SecretInfo {
        name: "db-secret".to_string(),
        namespace: "default".to_string(),
        secret_type: "Opaque".to_string(),
        data_keys: vec![],
        age: "1d".to_string(),
        labels: LabelMap::new(),
        used_by: vec![],
        mount_paths: vec![],
    };
    check_pod_secret_references(&pod, &mut secret);
    assert_eq!(secret.used_by.len(), 1);
    assert_eq!(secret.used_by[0].name, "db-pod");
    check_pod_secret_references(&pod, &mut secret);
    assert_eq!(secret.used_by.len(), 1);
}

#[test]
fn test_selector_string_joins_pairs() {
    let mut selector = LabelMap::new();
    selector.insert("app".to_string(), "web".to_string());
    selector.insert("tier".to_string(), "frontend".to_string());
    assert_eq!(selector_string(&selector), "app=web,tier=frontend");

    assert_eq!(selector_string(&LabelMap::new()), "");
}

#[test]
fn test_ingress_route_urls_scheme() {
    let plain = IngressInfo {
        name: "in1".to_string(),
        namespace: "default".to_string(),
        hosts: vec!["example.com".to_string(), "www.example.com".to_string()],
        paths: vec![],
        tls_enabled: false,
    };
    let tls = IngressInfo {
        name: "in2".to_string(),
        namespace: "default".to_string(),
        hosts: vec!["secure.example.com".to_string()],
        paths: vec![],
        tls_enabled: true,
    };
    let urls = ingress_route_urls(&vec![plain, tls]);
    assert_eq!(
        urls,
        vec![
            "http://example.com".to_string(),
            "http://www.example.com".to_string(),
            "https://secure.example.com".to_string(),
        ]
    );
}

#[test]
fn test_cluster_ip_reachable_cases() {
    assert!(!cluster_ip_reachable(&None));
    assert!(!cluster_ip_reachable(&Some("None".to_string())));
    assert!(!cluster_ip_reachable(&Some("".to_string())));
    assert!(!cluster_ip_reachable(&Some("ClusterIP".to_string())));
    assert!(cluster_ip_reachable(&Some("10.0.0.1".to_string())));
}
