//! The levels of shards that wait for each other.
use yuri_rewrite::dependency::build_dependency_levels;
use yuri_rewrite::domain::{
    RewriteObligation, RewritePlan, RewriteStateUpdate, SourceImpactLink, SourceImpactNode,
};

fn plan(index: usize, dependency: &[&str], thread_key: &str) -> RewritePlan {
    RewritePlan {
        plan_version: "protagonist-graph-v1".to_string(),
        graph_additions: Vec::new(),
        obligations: vec![RewriteObligation {
            obligation_id: format!("O-{index}"),
            node_id: format!("N-{index}"),
            chapter_index: index as i64 + 1,
            rule_ids: Vec::new(),
            preserve: Vec::new(),
            required_changes: Vec::new(),
            deep_delta_categories: Vec::new(),
            forbidden_regressions: Vec::new(),
            downstream_effects: Vec::new(),
            planned_state_updates: if thread_key.is_empty() {
                Vec::new()
            } else {
                vec![RewriteStateUpdate {
                    thread_key: thread_key.to_string(),
                    state_type: "关系".to_string(),
                    value: format!("状态-{index}"),
                    chapter_index: index as i64 + 1,
                    source_obligation_ids: vec![format!("O-{index}")],
                }]
            },
        }],
        planned_state_updates: Vec::new(),
        cross_shard_dependencies: dependency.iter().map(|value| value.to_string()).collect(),
    }
}

fn node(index: usize, target: Option<usize>) -> SourceImpactNode {
    SourceImpactNode {
        node_id: format!("N-{index}"),
        chapter_index: index as i64 + 1,
        thread_keys: Vec::new(),
        links: target
            .map(|target| SourceImpactLink {
                kind: "continues".to_string(),
                target: format!("N-{target}"),
            })
            .into_iter()
            .collect(),
    }
}

#[test]
fn independent_shards_share_the_same_wave() {
    let plans = vec![plan(0, &[], ""), plan(1, &[], "")];
    assert_eq!(build_dependency_levels(&plans, &[]).unwrap(), vec![0, 0]);
}

#[test]
fn graph_and_declared_dependencies_build_topological_levels() {
    let plans = vec![
        plan(0, &[], "承诺线"),
        plan(1, &["O-0"], ""),
        plan(2, &["thread:承诺线"], ""),
    ];
    let graph = vec![node(0, Some(1)), node(1, None), node(2, None)];
    assert_eq!(
        build_dependency_levels(&plans, &graph).unwrap(),
        vec![0, 1, 1]
    );
}

#[test]
fn current_shard_ids_and_threads_are_ignored_as_non_cross_dependencies() {
    let plans = vec![
        plan(0, &[], ""),
        plan(1, &["O-1", "thread:当前关系线"], "当前关系线"),
    ];

    assert_eq!(build_dependency_levels(&plans, &[]).unwrap(), vec![0, 0]);
}

#[test]
fn abbreviated_thread_dependency_matches_a_prior_stable_thread() {
    let plans = vec![
        plan(0, &[], "许纸与吉尔伽美什的师徒/神人关系线"),
        plan(1, &[], ""),
        plan(2, &["thread:师徒"], "主角-吉尔伽美什关系线"),
    ];

    assert_eq!(build_dependency_levels(&plans, &[]).unwrap(), vec![0, 0, 1]);
}

#[test]
fn unknown_thread_dependency_conservatively_waits_for_all_prior_shards() {
    let plans = vec![
        plan(0, &[], ""),
        plan(1, &[], ""),
        plan(2, &["thread:模型自行概括的关系"], ""),
    ];

    assert_eq!(build_dependency_levels(&plans, &[]).unwrap(), vec![0, 0, 1]);
}

#[test]
fn unknown_and_cyclic_dependencies_are_rejected() {
    let unknown = vec![plan(0, &[], ""), plan(1, &["missing"], "")];
    assert!(build_dependency_levels(&unknown, &[])
        .unwrap_err()
        .contains("无法解析"));

    let cyclic = vec![plan(0, &["O-1"], ""), plan(1, &["O-0"], "")];
    assert!(build_dependency_levels(&cyclic, &[])
        .unwrap_err()
        .contains("循环"));
}
