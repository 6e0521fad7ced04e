//! The vertices and edges of the service-relationship topology. The
//! rendering of the topology as a drawing belongs to the presentation
//! layer; only the node and edge records live here.

use vstd::prelude::*;

verus! {

#[derive(Debug, Clone, PartialEq)]
pub enum NodeType {
    Service,
    Pod,
    Ingress,
}

/// One vertex of the topology: a service, pod or ingress, with an
/// optional highlight for the service an operator asked about.
#[derive(Debug, Clone)]
pub struct ServiceNode {
    pub name: String,
    pub namespace: String,
    pub node_type: NodeType,
    pub is_highlighted: bool,
}

#[derive(Debug, Clone)]
pub enum EdgeType {
    ServiceToPod,
    IngressToService,
}

/// One edge of the topology, tagged with the relationship it draws.
#[derive(Debug, Clone)]
pub struct ServiceEdge {
    pub relationship: EdgeType,
}

} // verus!
