//! Vocabulary of cognitive morphogenesis: growth patterns, node and
//! connection kinds, and fitness objectives, with their names.
use vstd::prelude::*;

verus! {

/// Growth algorithm kinds.
#[derive(Debug, Clone, Copy, PartialEq, Eq, Hash)]
pub enum GrowthPattern {
    /// Branching hyphal network (P2P overlays, distributed systems).
    Mycelium,
    /// Capillary fractal branching (data pipelines, hierarchical caches).
    Capillary,
    /// Slime-mold path optimisation (CDN, routing, mesh networks).
    SlimeMold,
    /// L-system self-similar structures (micro-service hierarchies).
    FractalLSystem,
    /// A combination of several patterns.
    Hybrid,
}

/// Node kinds of a grown structure.
#[derive(Debug, Clone, PartialEq, Eq, Hash)]
pub enum NodeType {
    /// Root node (starting point).
    Root,
    /// Service / processing unit.
    Service,
    /// Database or storage node.
    Database,
    /// Cache layer.
    Cache,
    /// API gateway / entry point.
    Gateway,
    /// Load balancer.
    LoadBalancer,
    /// Message queue / buffer.
    Queue,
    /// Leaf node (end point, no further branching).
    Leaf,
    /// Custom kind.
    Custom(String),
}

/// Connection kinds.
#[derive(Debug, Clone, Copy, PartialEq, Eq, Hash)]
pub enum ConnectionType {
    /// Data plane.
    DataFlow,
    /// Control plane.
    Control,
    /// Data replication.
    Replication,
    /// Backup / recovery.
    Backup,
}

/// Objectives of evolutionary selection.
#[derive(Debug, Clone, PartialEq, Eq)]
pub enum FitnessObjective {
    /// Minimal latency.
    MinimizeLatency,
    /// Maximal throughput.
    MaximizeThroughput,
    /// Minimal cost (fewest nodes).
    MinimizeCost,
    /// Maximal redundancy (fault tolerance).
    MaximizeRedundancy,
    /// Balanced (default).
    Balanced,
    /// Custom objective.
    Custom(String),
}

/// Name of a fixed node kind.
pub open spec fn fixed_node_name(t: NodeType) -> Seq<char> {
    match t {
        NodeType::Root => "Root"@,
        NodeType::Service => "Service"@,
        NodeType::Database => "Database"@,
        NodeType::Cache => "Cache"@,
        NodeType::Gateway => "Gateway"@,
        NodeType::LoadBalancer => "LoadBalancer"@,
        NodeType::Queue => "Queue"@,
        NodeType::Leaf => "Leaf"@,
        NodeType::Custom(s) => s@,
    }
}

impl NodeType {
    /// The kind's name; a custom kind is named by its own text.
    pub fn to_string(&self) -> (r: String)
        ensures
            r@ == fixed_node_name(*self),
    {
        match self {
            NodeType::Root => "Root".to_owned(),
            NodeType::Service => "Service".to_owned(),
            NodeType::Database => "Database".to_owned(),
            NodeType::Cache => "Cache".to_owned(),
            NodeType::Gateway => "Gateway".to_owned(),
            NodeType::LoadBalancer => "LoadBalancer".to_owned(),
            NodeType::Queue => "Queue".to_owned(),
            NodeType::Leaf => "Leaf".to_owned(),
            NodeType::Custom(s) => s.clone(),
        }
    }

    /// The displayed form: the name, with a custom kind shown as `Custom(text)`.
    pub fn label(&self) -> (r: String)
        ensures
            r@ == match *self {
                NodeType::Custom(s) => "Custom("@ + s@ + ")"@,
                _ => fixed_node_name(*self),
            },
    {
        match self {
            NodeType::Custom(s) => {
                let mut out = "Custom(".to_owned();
                out.append(s.as_str());
                out.append(")");
                out
            },
            _ => self.to_string(),
        }
    }
}

impl GrowthPattern {
    /// The displayed name of the pattern.
    pub fn label(&self) -> (r: &'static str)
        ensures
            r@ == match *self {
                GrowthPattern::Mycelium => "Mycelium"@,
                GrowthPattern::Capillary => "Capillary"@,
                GrowthPattern::SlimeMold => "SlimeMold"@,
                GrowthPattern::FractalLSystem => "FractalLSystem"@,
                GrowthPattern::Hybrid => "Hybrid"@,
            },
    {
        match self {
            GrowthPattern::Mycelium => "Mycelium",
            GrowthPattern::Capillary => "Capillary",
            GrowthPattern::SlimeMold => "SlimeMold",
            GrowthPattern::FractalLSystem => "FractalLSystem",
            GrowthPattern::Hybrid => "Hybrid",
        }
    }
}

impl ConnectionType {
    /// The displayed name of the connection kind.
    pub fn label(&self) -> (r: &'static str)
        ensures
            r@ == match *self {
                ConnectionType::DataFlow => "DataFlow"@,
                ConnectionType::Control => "Control"@,
                ConnectionType::Replication => "Replication"@,
                ConnectionType::Backup => "Backup"@,
            },
    {
        match self {
            ConnectionType::DataFlow => "DataFlow",
            ConnectionType::Control => "Control",
            ConnectionType::Replication => "Replication",
            ConnectionType::Backup => "Backup",
        }
    }
}

} // verus!
