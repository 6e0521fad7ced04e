use kdx::graph::{EdgeType, NodeType, ServiceEdge, ServiceNode};
use kdx::options::{GraphFormat, OutputFormat};

#[test]
fn test_output_format_default() {
    let format = OutputFormat::Table;
    assert!(matches!(format, OutputFormat::Table));
}

#[test]
fn test_output_format_debug() {
    let format = OutputFormat::Table;
    let debug_str = format!("{:?}", format);
    assert!(debug_str.contains("Table"));
}

#[test]
fn test_graph_format_default() {
    let format = GraphFormat::Dot;
    assert!(matches!(format, GraphFormat::Dot));
}

#[test]
fn test_graph_format_debug() {
    let format = GraphFormat::Dot;
    let debug_str = format!("{:?}", format);
    assert!(debug_str.contains("Dot"));
}

#[test]
fn test_output_format_names() {
    assert_eq!(OutputFormat::Table.format_name(), "table");
    assert_eq!(OutputFormat::Json.format_name(), "json");
    assert_eq!(OutputFormat::Yaml.format_name(), "yaml");
}

#[test]
fn test_node_type_debug() {
    let service_type = NodeType::Service;
    let debug_str = format!("{:?}", service_type);
    assert_eq!(debug_str, "Service");
}

#[test]
fn test_edge_type_debug() {
    let edge_type = EdgeType::ServiceToPod;
    let debug_str = format!("{:?}", edge_type);
    assert_eq!(debug_str, "ServiceToPod");
}

#[test]
fn test_service_node_creation() {
    let node = ServiceNode {
        name: "test".to_string(),
        namespace: "default".to_string(),
        node_type: NodeType::Service,
        is_highlighted: false,
    };
    assert_eq!(node.name, "test");
    assert_eq!(node.namespace, "default");
    assert!(!node.is_highlighted);
}

#[test]
fn test_service_edge_creation() {
    let edge = ServiceEdge {
        relationship: EdgeType::ServiceToPod,
    };
    assert!(matches!(edge.relationship, EdgeType::ServiceToPod));
}
