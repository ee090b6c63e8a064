use microscope_memory::planning::{GoalStatus, Planner};
use microscope_memory::planning::{plan_actions, plan_duration, subgoal_templates, F64_0_3};
use microscope_memory::query::{keyword_score, parse, select_hits, BoolOp, DepthRange, QueryCandidate, QueryHit};
use microscope_memory::relevance::{normalize, RelevanceQuery};

#[test]
fn test_parse_simple() {
    let q = parse("hello");
    assert_eq!(q.keywords, vec!["hello"]);
    assert_eq!(q.op, BoolOp::And);
}

#[test]
fn test_parse_quoted() {
    let q = parse("\"hello world\"");
    assert_eq!(q.keywords, vec!["hello world"]);
}

#[test]
fn test_parse_filters() {
    let q = parse("layer:long_term depth:2..5 \"Ora\"");
    // the layer filter keeps the layer's name (long_term is layer 1)
    assert_eq!(q.layer_filter, Some("long_term".to_string()));
    assert_eq!(q.depth_filter, Some(DepthRange { lo: 2, hi: 5 }));
    assert_eq!(q.keywords, vec!["ora"]);
}

#[test]
fn test_parse_bool_op() {
    let q = parse("\"foo\" OR \"bar\"");
    assert_eq!(q.op, BoolOp::Or);
    assert_eq!(q.keywords, vec!["foo", "bar"]);
}

#[test]
fn test_parse_limit() {
    let q = parse("limit:20 hello");
    assert_eq!(q.limit, 20);
}

#[test]
fn test_parse_spatial() {
    let q = parse("near:0.2,0.3,0.1,0.05 test");
    assert_eq!(q.near_values, vec!["0.2,0.3,0.1,0.05".to_string()]);
    let parts: Vec<f32> = q.near_values[0].split(',').filter_map(|s| s.parse().ok()).collect();
    let (x, y, z, r) = (parts[0], parts[1], parts[2], parts[3]);
    assert!((x - 0.2).abs() < 0.001);
    assert!((y - 0.3).abs() < 0.001);
    assert!((z - 0.1).abs() < 0.001);
    assert!((r - 0.05).abs() < 0.001);
    assert_eq!(q.keywords, vec!["test"]);
}

#[test]
fn test_keyword_score_and() {
    assert_eq!(keyword_score("hello world", &["hello".into(), "world".into()], &BoolOp::And) as f32, 2.0);
    assert_eq!(keyword_score("hello", &["hello".into(), "world".into()], &BoolOp::And) as f32, 0.0);
}

#[test]
fn test_keyword_score_or() {
    assert_eq!(keyword_score("hello", &["hello".into(), "world".into()], &BoolOp::Or) as f32, 1.0);
    assert_eq!(keyword_score("nope", &["hello".into(), "world".into()], &BoolOp::Or) as f32, 0.0);
}

#[test]
fn query_parse_edge_cases() {
    let q = parse("   ");
    assert!(q.keywords.is_empty());
    assert_eq!(q.limit, 10);
    let q = parse("depth:3 depth:x ANDROID AND\tfoo OR");
    assert_eq!(q.depth_filter, Some(DepthRange { lo: 3, hi: 3 }));
    assert_eq!(q.keywords, vec!["android", "and", "foo"]);
    assert_eq!(q.op, BoolOp::Or);
    let q = parse("depth:..x \"unclosed word");
    assert_eq!(q.depth_filter, Some(DepthRange { lo: 0, hi: 8 }));
    assert_eq!(q.keywords, vec!["\"unclosed", "word"]);
    let q = parse("limit:abc layer: x");
    assert_eq!(q.limit, 10);
    assert_eq!(q.layer_filter, Some("x".to_string()));
    assert_eq!(keyword_score("anything", &[], &BoolOp::And), 1);
}

#[test]
fn planning_subgoals_by_goal_kind() {
    let s = subgoal_templates("Learn", 5);
    let names: Vec<&str> = s.iter().map(|g| g.name.as_str()).collect();
    assert_eq!(names, vec!["collect_data", "analyze", "store", "verify"]);
    assert_eq!(s.iter().map(|g| g.priority).collect::<Vec<u8>>(), vec![15, 25, 35, 45]);
    assert_eq!(s[0].description, "Adatok gyűjtése");
    let g = subgoal_templates("Build", 200);
    assert_eq!(g[0].description, "Build elemzése");
    assert_eq!(g[3].description, "Eredmény ellenőrzése: Build");
    assert_eq!(g[3].priority, 240);
    assert!(subgoal_templates("learn", 201).is_empty());
    let e = subgoal_templates("exploráció", 1);
    assert_eq!(e[2].name, "map");
}

#[test]
fn planning_actions_by_goal_name() {
    let a = plan_actions("collect_data", 10);
    assert_eq!(a.iter().map(|x| x.id).collect::<Vec<u64>>(), vec![11, 12, 13]);
    assert_eq!(a[0].name, "query_source");
    assert_eq!(a[0].cost_bits, F64_0_3);
    assert_eq!(f64::from_bits(a[0].cost_bits), 0.3);
    assert_eq!(a[1].dependencies, vec![11]);
    assert_eq!(a[1].preconditions, vec!["data_collected".to_string()]);
    assert_eq!(plan_duration(&a), 180);
    let x = plan_actions("Execute", 0);
    assert_eq!(x[0].name, "prepare_Execute");
    assert!(x[0].preconditions.is_empty());
    assert_eq!(f64::from_bits(x[1].cost_bits), 0.8);
    let g = plan_actions("write docs", 0);
    assert_eq!(g[1].name, "process_write docs");
    assert_eq!(plan_duration(&g), 380);
}

#[test]
fn relevance_query_tokens_are_distinct_and_long() {
    let q = RelevanceQuery::new("The Cat, the CAT and a dog-house!");
    assert_eq!(q.normalized, "the cat the cat and a dog house");
    assert_eq!(q.tokens, vec!["the".to_string(), "cat".to_string(), "and".to_string(), "dog".to_string(), "house".to_string()]);
    assert!(!q.is_empty());
    let empty = RelevanceQuery::new("a b ?!");
    assert!(empty.is_empty());
    assert_eq!(normalize("  Visszakeresési-MINŐSÉG.  "), "visszakeresési minőség");
}

#[test]
fn planner_decompose_goal_records_subgoals() {
    let mut p = Planner::new();
    let g = p.add_goal("Learn", "d", 5, None, 1000);
    assert_eq!(g, 1);
    let s = p.decompose_goal(g, 2000);
    assert_eq!(s, vec![2, 3, 4, 5]);
    let names: Vec<String> = s.iter().map(|&id| p.get_goal(id).unwrap().name).collect();
    assert_eq!(names, vec!["collect_data", "analyze", "store", "verify"]);
    for (k, &id) in s.iter().enumerate() {
        let sub = p.get_goal(id).unwrap();
        assert_eq!(sub.priority, 15 + 10 * k as u8);
        assert_eq!(sub.parent_id, Some(g));
        assert_eq!(sub.status, GoalStatus::Active);
        assert_eq!(sub.created_ms, 2000);
    }
    assert_eq!(p.get_goal(g).unwrap().subgoals, s);
    assert_eq!(p.list_goals(None).len(), 5);
    assert_eq!(p.list_goals(Some(&GoalStatus::Active)).len(), 5);
    assert!(p.list_goals(Some(&GoalStatus::Completed)).is_empty());
    // Unknown goals and atomic goals are not broken down.
    assert!(p.decompose_goal(99, 3000).is_empty());
    let atomic = p.add_goal("x", "y", 201, None, 3000);
    assert!(p.decompose_goal(atomic, 3000).is_empty());
    assert_eq!(p.list_goals(None).len(), 6);
    assert!(p.get_goal(99).is_none());
}

fn cand(layer_id: u8, depth: u8, in_range: bool, text: &str) -> QueryCandidate {
    QueryCandidate { layer_id, depth, in_range, text: text.to_string() }
}

#[test]
fn query_select_hits_filters_scores_and_orders() {
    let q = parse("\"foo\" OR \"bar\" limit:10");
    let main = vec![cand(1, 3, true, "Foo bar"), cand(1, 3, true, "nothing"), cand(2, 3, true, "foo foo")];
    let appended = vec![cand(1, 4, true, "FOO")];
    let hits = select_hits(&q, None, &main, &appended);
    assert_eq!(
        hits,
        vec![
            QueryHit { score: 2, block_idx: 0, is_main: true },
            QueryHit { score: 1, block_idx: 2, is_main: true },
            QueryHit { score: 1, block_idx: 1_000_000, is_main: false },
        ]
    );
    // Layer filter (by id), depth range and the near: sphere.
    let hits = select_hits(&q, Some(1), &main, &appended);
    assert_eq!(hits.iter().map(|h| h.block_idx).collect::<Vec<_>>(), vec![0, 1_000_000]);
    let q2 = parse("depth:4..5 \"foo\"");
    let hits = select_hits(&q2, None, &main, &appended);
    assert_eq!(hits, vec![QueryHit { score: 1, block_idx: 1_000_000, is_main: false }]);
    let far = vec![cand(1, 3, false, "foo")];
    assert!(select_hits(&q, None, &far, &vec![]).is_empty());
    // The limit cuts the ordered list.
    let q3 = parse("\"foo\" limit:1");
    let hits = select_hits(&q3, None, &main, &appended);
    assert_eq!(hits, vec![QueryHit { score: 1, block_idx: 0, is_main: true }]);
}
