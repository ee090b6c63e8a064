use microscope_memory::morphogenesis::{ConnectionType, FitnessObjective, GrowthPattern, NodeType};

#[test]
fn test_node_type_conversion() {
    assert_eq!(NodeType::Root.to_string(), "Root");
    assert_eq!(NodeType::Service.to_string(), "Service");
    assert_eq!(NodeType::Cache.to_string(), "Cache");
    assert_eq!(NodeType::Custom("test".to_string()).to_string(), "test");
}

// ─── Additional checks ─────────────────────────────

#[test]
fn morphogenesis_labels() {
    assert_eq!(NodeType::LoadBalancer.to_string(), "LoadBalancer");
    assert_eq!(NodeType::Leaf.label(), "Leaf");
    assert_eq!(NodeType::Custom("edge".to_string()).label(), "Custom(edge)");
    assert_eq!(GrowthPattern::SlimeMold.label(), "SlimeMold");
    assert_eq!(GrowthPattern::FractalLSystem.label(), "FractalLSystem");
    assert_eq!(ConnectionType::Replication.label(), "Replication");
    assert_ne!(FitnessObjective::Balanced, FitnessObjective::MinimizeCost);
    assert_eq!(
        FitnessObjective::Custom("x".to_string()),
        FitnessObjective::Custom("x".to_string())
    );
}
