use provenance::store::cache::gaps::compute_gaps;
use provenance::store::cache::gaps::query::GraphQuery;
use provenance::store::cache::gaps::model::{
    GapGraph, GapItem, QuestionEntry, QuestionStatus, RequirementEntry, ResolutionEntry, ScopedEdge,
    SourceEntry, ThreadEntry, TopicEntry,
};
use provenance::store::cache::graph::{Edge, EdgeType, NodeType};
use provenance::store::cache::rules::RuleRecord;
use provenance::store::cache::GapKind;

const ANCHOR_SOURCE: &str = "source_anchor";
const ANCHOR_DOMAIN: &str = "domain_shaping";

fn requirement(id: &str) -> RequirementEntry {
    RequirementEntry { id: id.to_string(), resolved: false, domain_id: None, source_refs: Vec::new() }
}

fn resolution(id: &str) -> ResolutionEntry {
    ResolutionEntry { id: id.to_string(), approved: false, superseded_by: None }
}

fn rule(id: &str) -> RuleRecord {
    RuleRecord { id: id.to_string(), severity: "high".to_string() }
}

fn topic_for(id: &str, requirement_id: &str, open: bool) -> TopicEntry {
    TopicEntry { id: id.to_string(), requirement_id: requirement_id.to_string(), open }
}

fn topic(id: &str, open: bool) -> TopicEntry {
    topic_for(id, "req_topic", open)
}

fn question_for(id: &str, topic_id: &str, requirement_id: &str, status: QuestionStatus) -> QuestionEntry {
    QuestionEntry {
        id: id.to_string(),
        topic_id: topic_id.to_string(),
        requirement_id: requirement_id.to_string(),
        status,
        resolution_id: None,
    }
}

fn question(id: &str, topic_id: &str, status: QuestionStatus) -> QuestionEntry {
    question_for(id, topic_id, "req_topic", status)
}

fn source(id: &str) -> SourceEntry {
    SourceEntry { id: id.to_string(), superseded_by: None }
}

fn edge(edge_type: EdgeType, from: (NodeType, &str), to: (NodeType, &str)) -> ScopedEdge {
    ScopedEdge {
        id: format!("edge_{:?}_{}_{}", edge_type, from.1, to.1).to_lowercase(),
        scope_id: "default".to_string(),
        edge: Edge {
            edge_type,
            from_type: from.0,
            from_id: from.1.to_string(),
            to_type: to.0,
            to_id: to.1.to_string(),
        },
    }
}

#[derive(Default, Clone)]
struct HandBuiltGraph {
    sources: Vec<SourceEntry>,
    requirements: Vec<RequirementEntry>,
    resolutions: Vec<ResolutionEntry>,
    rules: Vec<RuleRecord>,
    topics: Vec<TopicEntry>,
    questions: Vec<QuestionEntry>,
    edges: Vec<ScopedEdge>,
    threads: Vec<ThreadEntry>,
}

impl HandBuiltGraph {
    fn gaps(&self) -> Vec<GapItem> {
        compute_gaps(&GapGraph {
            scope: "default".to_string(),
            sources: self.sources.clone(),
            requirements: self.requirements.clone(),
            resolutions: self.resolutions.clone(),
            rules: self.rules.clone(),
            topics: self.topics.clone(),
            questions: self.questions.clone(),
            edges: self.edges.clone(),
            threads: self.threads.clone(),
        })
    }
}

fn compute_for(
    sources: &[SourceEntry],
    requirements: &[RequirementEntry],
    resolutions: &[ResolutionEntry],
    rules: &[RuleRecord],
    topics: &[TopicEntry],
    questions: &[QuestionEntry],
    edges: &[ScopedEdge],
) -> Vec<GapItem> {
    HandBuiltGraph {
        sources: sources.to_vec(),
        requirements: requirements.to_vec(),
        resolutions: resolutions.to_vec(),
        rules: rules.to_vec(),
        topics: topics.to_vec(),
        questions: questions.to_vec(),
        edges: edges.to_vec(),
        threads: Vec::new(),
    }
    .gaps()
}

fn count_kind(gaps: &[GapItem], kind: GapKind) -> usize {
    gaps.iter().filter(|gap| gap.kind == kind).count()
}

fn shared_resolution_case() -> usize {
    let requirements = vec![requirement("req_left"), requirement("req_right")];
    let resolutions = vec![resolution("res_shared")];
    let edges = vec![
        edge(EdgeType::Contradicts, (NodeType::Requirement, "req_left"), (NodeType::Requirement, "req_right")),
        edge(EdgeType::Resolves, (NodeType::Resolution, "res_shared"), (NodeType::Requirement, "req_left")),
        edge(EdgeType::Resolves, (NodeType::Resolution, "res_shared"), (NodeType::Requirement, "req_right")),
    ];
    let gaps = compute_for(&[], &requirements, &resolutions, &[], &[], &[], &edges);
    count_kind(&gaps, GapKind::UnresolvedContradictsPair)
}

fn supersedes_case() -> usize {
    let requirements = vec![requirement("req_left"), requirement("req_right")];
    let edges = vec![
        edge(EdgeType::Contradicts, (NodeType::Requirement, "req_left"), (NodeType::Requirement, "req_right")),
        edge(EdgeType::Supersedes, (NodeType::Requirement, "req_right"), (NodeType::Requirement, "req_left")),
    ];
    let gaps = compute_for(&[], &requirements, &[], &[], &[], &[], &edges);
    count_kind(&gaps, GapKind::UnresolvedContradictsPair)
}

fn answered_case() -> (usize, usize) {
    let requirements = vec![requirement("req_topic")];
    let topics = vec![topic("topic_explored", false)];
    let questions = vec![question("question_answered", "topic_explored", QuestionStatus::Answered)];
    let gaps = compute_for(&[], &requirements, &[], &[], &topics, &questions, &[]);
    (count_kind(&gaps, GapKind::OpenQuestion), count_kind(&gaps, GapKind::UnexploredTopic))
}

fn bidirectional_case() -> usize {
    let sources = vec![source("source_anchor")];
    let mut requirements = vec![requirement("req_left"), requirement("req_right")];
    for requirement in &mut requirements {
        requirement.source_refs = vec!["source_anchor".to_string()];
    }
    let edges = vec![
        edge(EdgeType::Contradicts, (NodeType::Requirement, "req_left"), (NodeType::Requirement, "req_right")),
        edge(EdgeType::Contradicts, (NodeType::Requirement, "req_right"), (NodeType::Requirement, "req_left")),
    ];
    let gaps = compute_for(&sources, &requirements, &[], &[], &[], &[], &edges);
    count_kind(&gaps, GapKind::UnresolvedContradictsPair)
}

#[test]
fn gaps_shared_resolving_resolution_suppresses_unresolved_contradiction_gap() {
    assert_eq!(shared_resolution_case(), 0);
}

#[test]
fn gaps_supersedes_edge_suppresses_unresolved_contradiction_gap() {
    assert_eq!(supersedes_case(), 0);
}

#[test]
fn gaps_answered_questions_and_explored_topics_are_not_frontier_gaps() {
    assert_eq!(answered_case(), (0, 0));
}

#[test]
fn gaps_rule_produced_by_missing_resolution_is_orphaned_and_has_dangling_edge_gap() {
    let rules = vec![rule("rule_orphaned")];
    let edges = vec![edge(EdgeType::Produces, (NodeType::Resolution, "res_missing"), (NodeType::Rule, "rule_orphaned"))];
    let gaps = compute_for(&[], &[], &[], &rules, &[], &[], &edges);
    assert!(gaps.iter().any(|gap| {
        gap.kind == GapKind::OrphanRule && gap.node_type == NodeType::Rule && gap.node_id == "rule_orphaned"
    }));
    assert!(gaps.iter().any(|gap| {
        gap.kind == GapKind::DanglingReference
            && gap.node_type == NodeType::Resolution
            && gap.node_id == "res_missing"
            && gap.reason.contains("edge")
    }));
}

#[test]
fn gaps_unresolved_contradiction_pair_is_reported_once_for_bidirectional_edges() {
    assert_eq!(bidirectional_case(), 1);
}

#[test]
fn policy_behavior_shared_resolving_resolution_suppresses_unresolved_contradiction_gap() {
    assert_eq!(shared_resolution_case(), 0);
}

#[test]
fn policy_behavior_supersedes_edge_suppresses_unresolved_contradiction_gap() {
    assert_eq!(supersedes_case(), 0);
}

#[test]
fn policy_behavior_answered_questions_and_explored_topics_are_not_frontier_gaps() {
    assert_eq!(answered_case(), (0, 0));
}

#[test]
fn policy_behavior_unresolved_contradiction_pair_is_reported_once_for_bidirectional_edges() {
    assert_eq!(bidirectional_case(), 1);
}

fn all_gap_kinds() -> Vec<GapKind> {
    let mut all = vec![GapKind::MissingDomainId];
    while let Some(next) = match all.last().unwrap() {
        GapKind::MissingDomainId => Some(GapKind::MissingSourceRefs),
        GapKind::MissingSourceRefs => Some(GapKind::NoResolvingDecision),
        GapKind::NoResolvingDecision => Some(GapKind::NoProducedRules),
        GapKind::NoProducedRules => Some(GapKind::OrphanRule),
        GapKind::OrphanRule => Some(GapKind::OrphanResolution),
        GapKind::OrphanResolution => Some(GapKind::UnreferencedSource),
        GapKind::UnreferencedSource => Some(GapKind::DanglingReference),
        GapKind::DanglingReference => Some(GapKind::UnresolvedContradictsPair),
        GapKind::UnresolvedContradictsPair => Some(GapKind::OpenQuestion),
        GapKind::OpenQuestion => Some(GapKind::UnexploredTopic),
        GapKind::UnexploredTopic => None,
    } {
        all.push(next);
    }
    all
}

fn sourced_requirement(id: &str, source_id: &str, resolved: bool) -> RequirementEntry {
    RequirementEntry { resolved, source_refs: vec![source_id.to_string()], ..requirement(id) }
}

fn settled_requirement(id: &str, source_id: &str, resolved: bool) -> RequirementEntry {
    RequirementEntry { domain_id: Some(ANCHOR_DOMAIN.to_string()), ..sourced_requirement(id, source_id, resolved) }
}

fn minimal_graph_for(kind: GapKind) -> HandBuiltGraph {
    match kind {
        GapKind::MissingDomainId => HandBuiltGraph {
            sources: vec![source(ANCHOR_SOURCE)],
            requirements: vec![sourced_requirement("req_no_domain", ANCHOR_SOURCE, false)],
            ..HandBuiltGraph::default()
        },
        GapKind::MissingSourceRefs => HandBuiltGraph {
            requirements: vec![RequirementEntry {
                domain_id: Some(ANCHOR_DOMAIN.to_string()),
                ..requirement("req_no_source")
            }],
            ..HandBuiltGraph::default()
        },
        GapKind::NoResolvingDecision => HandBuiltGraph {
            sources: vec![source(ANCHOR_SOURCE)],
            requirements: vec![
                settled_requirement("req_resolved", ANCHOR_SOURCE, true),
                settled_requirement("req_decided", ANCHOR_SOURCE, false),
            ],
            resolutions: vec![resolution("res_decided")],
            rules: vec![rule("rule_direct")],
            edges: vec![
                edge(EdgeType::Produces, (NodeType::Requirement, "req_resolved"), (NodeType::Rule, "rule_direct")),
                edge(EdgeType::Produces, (NodeType::Resolution, "res_decided"), (NodeType::Rule, "rule_direct")),
                edge(EdgeType::Resolves, (NodeType::Resolution, "res_decided"), (NodeType::Requirement, "req_decided")),
            ],
            ..HandBuiltGraph::default()
        },
        GapKind::NoProducedRules => HandBuiltGraph {
            sources: vec![source(ANCHOR_SOURCE)],
            requirements: vec![settled_requirement("req_decided", ANCHOR_SOURCE, false)],
            resolutions: vec![resolution("res_decided")],
            edges: vec![edge(
                EdgeType::Resolves,
                (NodeType::Resolution, "res_decided"),
                (NodeType::Requirement, "req_decided"),
            )],
            ..HandBuiltGraph::default()
        },
        GapKind::OrphanRule => HandBuiltGraph {
            sources: vec![source(ANCHOR_SOURCE)],
            requirements: vec![settled_requirement("req_half_traced", ANCHOR_SOURCE, false)],
            resolutions: vec![resolution("res_half_traced")],
            rules: vec![rule("rule_half_traced")],
            edges: vec![
                edge(
                    EdgeType::Resolves,
                    (NodeType::Resolution, "res_half_traced"),
                    (NodeType::Requirement, "req_half_traced"),
                ),
                edge(EdgeType::Produces, (NodeType::Requirement, "req_half_traced"), (NodeType::Rule, "rule_half_traced")),
            ],
            ..HandBuiltGraph::default()
        },
        GapKind::OrphanResolution => HandBuiltGraph {
            resolutions: vec![resolution("res_orphan")],
            ..HandBuiltGraph::default()
        },
        GapKind::UnreferencedSource => HandBuiltGraph {
            sources: vec![source("source_unused")],
            ..HandBuiltGraph::default()
        },
        GapKind::DanglingReference => HandBuiltGraph {
            topics: vec![topic_for("topic_dangling", "req_missing", false)],
            ..HandBuiltGraph::default()
        },
        GapKind::UnresolvedContradictsPair => HandBuiltGraph {
            sources: vec![source(ANCHOR_SOURCE)],
            requirements: vec![
                settled_requirement("req_left", ANCHOR_SOURCE, false),
                settled_requirement("req_right", ANCHOR_SOURCE, false),
            ],
            edges: vec![edge(
                EdgeType::Contradicts,
                (NodeType::Requirement, "req_left"),
                (NodeType::Requirement, "req_right"),
            )],
            ..HandBuiltGraph::default()
        },
        GapKind::OpenQuestion => HandBuiltGraph {
            sources: vec![source(ANCHOR_SOURCE)],
            requirements: vec![settled_requirement("req_asked", ANCHOR_SOURCE, false)],
            topics: vec![topic_for("topic_asked", "req_asked", false)],
            questions: vec![question_for("question_open", "topic_asked", "req_asked", QuestionStatus::Open)],
            ..HandBuiltGraph::default()
        },
        GapKind::UnexploredTopic => HandBuiltGraph {
            sources: vec![source(ANCHOR_SOURCE)],
            requirements: vec![settled_requirement("req_open_topic", ANCHOR_SOURCE, false)],
            topics: vec![topic_for("topic_open", "req_open_topic", true)],
            ..HandBuiltGraph::default()
        },
    }
}

fn complete_graph(chains: usize) -> HandBuiltGraph {
    let mut graph = HandBuiltGraph::default();
    for index in 0..chains {
        let source_id = format!("source_{index}");
        let requirement_id = format!("req_{index}");
        let resolution_id = format!("res_{index}");
        let rule_id = format!("rule_{index}");
        let topic_id = format!("topic_{index}");
        let question_id = format!("question_{index}");
        graph.sources.push(source(&source_id));
        graph.requirements.push(settled_requirement(&requirement_id, &source_id, true));
        graph.resolutions.push(ResolutionEntry { approved: true, ..resolution(&resolution_id) });
        graph.rules.push(rule(&rule_id));
        graph.topics.push(topic_for(&topic_id, &requirement_id, false));
        graph.questions.push(question_for(&question_id, &topic_id, &requirement_id, QuestionStatus::Answered));
        graph.edges.push(edge(
            EdgeType::Resolves,
            (NodeType::Resolution, &resolution_id),
            (NodeType::Requirement, &requirement_id),
        ));
        graph.edges.push(edge(EdgeType::Produces, (NodeType::Resolution, &resolution_id), (NodeType::Rule, &rule_id)));
        graph.edges.push(edge(EdgeType::Produces, (NodeType::Requirement, &requirement_id), (NodeType::Rule, &rule_id)));
    }
    graph
}

fn orphan_rule_reason(graph: &HandBuiltGraph, rule_id: &str) -> Option<String> {
    graph
        .gaps()
        .into_iter()
        .find(|gap| gap.kind == GapKind::OrphanRule && gap.node_id == rule_id)
        .map(|gap| gap.reason)
}

#[test]
fn every_gap_kind_has_a_minimal_graph_that_produces_exactly_it() {
    for kind in all_gap_kinds() {
        let gaps = minimal_graph_for(kind).gaps();
        assert_eq!(
            gaps.iter().map(|gap| gap.kind).collect::<Vec<_>>(),
            vec![kind],
            "the minimal graph for {kind:?} does not produce exactly that gap; got {gaps:#?}"
        );
    }
}

#[test]
fn a_complete_graph_has_no_gaps() {
    for chains in 0..=6 {
        let gaps = complete_graph(chains).gaps();
        assert!(gaps.is_empty(), "a complete graph of {chains} chains reports gaps: {gaps:#?}");
    }
}

#[test]
fn removing_any_single_link_from_a_complete_graph_opens_a_gap() {
    for chains in 1..=4 {
        let complete = complete_graph(chains);
        for dropped in 0..complete.edges.len() {
            let mut graph = complete_graph(chains);
            let removed = graph.edges.remove(dropped);
            assert!(
                !graph.gaps().is_empty(),
                "dropping {:?} edge {} from a complete graph of {chains} chains left no gap",
                removed.edge.edge_type,
                removed.id
            );
        }
        for orphaned in 0..chains {
            let mut graph = complete_graph(chains);
            graph.requirements[orphaned].source_refs.clear();
            assert!(
                !graph.gaps().is_empty(),
                "dropping the source ref of requirement {orphaned} from a complete graph of {chains} chains left no gap"
            );
        }
    }
}

#[test]
fn a_rule_produced_from_one_end_only_stays_orphaned_and_the_gap_names_the_missing_end() {
    let mut requirement_only = complete_graph(1);
    requirement_only
        .edges
        .retain(|e| !(e.edge.edge_type == EdgeType::Produces && e.edge.from_type == NodeType::Resolution));
    assert_eq!(orphan_rule_reason(&requirement_only, "rule_0").as_deref(), Some("no resolution produces this rule"));

    let mut resolution_only = complete_graph(1);
    resolution_only
        .edges
        .retain(|e| !(e.edge.edge_type == EdgeType::Produces && e.edge.from_type == NodeType::Requirement));
    assert_eq!(orphan_rule_reason(&resolution_only, "rule_0").as_deref(), Some("no requirement produces this rule"));

    let unattached = HandBuiltGraph { rules: vec![rule("rule_unattached")], ..HandBuiltGraph::default() };
    assert_eq!(
        orphan_rule_reason(&unattached, "rule_unattached").as_deref(),
        Some("no requirement or resolution produces this rule")
    );

    assert_eq!(orphan_rule_reason(&complete_graph(1), "rule_0"), None);
}

#[test]
fn gaps_flag_a_requirement_without_a_domain_by_its_id() {
    let graph = HandBuiltGraph {
        sources: vec![source(ANCHOR_SOURCE)],
        requirements: vec![
            sourced_requirement("req_missing_domain", ANCHOR_SOURCE, false),
            settled_requirement("req_with_domain", ANCHOR_SOURCE, false),
        ],
        ..HandBuiltGraph::default()
    };
    let gaps = graph.gaps();
    assert_eq!(gaps.len(), 1);
    assert_eq!(gaps[0].kind, GapKind::MissingDomainId);
    assert_eq!(gaps[0].requirement_id.as_deref(), Some("req_missing_domain"));
    assert_eq!(gaps[0].reason, "requirement has no domain_id");
    assert_eq!(gaps[0].subject(), "requirement req_missing_domain");
}

#[test]
fn dangling_references_name_the_missing_record() {
    let graph = HandBuiltGraph {
        sources: vec![SourceEntry { superseded_by: Some("source_gone".to_string()), ..source("source_old") }],
        requirements: vec![RequirementEntry {
            domain_id: Some(ANCHOR_DOMAIN.to_string()),
            source_refs: vec!["source_old".to_string(), "source_lost".to_string()],
            ..requirement("req_a")
        }],
        questions: vec![QuestionEntry {
            resolution_id: Some("res_gone".to_string()),
            ..question_for("question_a", "topic_gone", "req_a", QuestionStatus::Answered)
        }],
        threads: vec![ThreadEntry {
            id: "thread_a".to_string(),
            parent_type: NodeType::Rule,
            parent_id: "rule_gone".to_string(),
        }],
        edges: vec![edge(EdgeType::References, (NodeType::Source, "source_old"), (NodeType::Requirement, "req_gone"))],
        ..HandBuiltGraph::default()
    };
    let gaps = graph.gaps();
    let reasons: Vec<&str> = gaps.iter().map(|gap| gap.reason.as_str()).collect();
    assert_eq!(
        reasons,
        vec![
            "source ref points at missing source source_lost",
            "superseded by missing source source_gone",
            "question points at missing topic topic_gone",
            "question points at missing resolution res_gone",
            "thread thread_a points at missing rule rule_gone",
            "edge edge_references_source_old_req_gone points to missing requirement req_gone",
        ]
    );
    assert_eq!(gaps[0].subject(), "requirement req_a -> source source_lost");
    assert_eq!(gaps[2].requirement_id.as_deref(), Some("req_a"));
    assert_eq!(gaps[5].subject(), "requirement req_gone -> source source_old");
    assert_eq!(gaps[5].requirement_id.as_deref(), Some("req_gone"));
}

#[test]
fn edges_of_another_scope_are_ignored() {
    let mut other = edge(EdgeType::Contradicts, (NodeType::Requirement, "req_left"), (NodeType::Requirement, "req_right"));
    other.scope_id = "other".to_string();
    let graph = HandBuiltGraph {
        sources: vec![source(ANCHOR_SOURCE)],
        requirements: vec![
            settled_requirement("req_left", ANCHOR_SOURCE, false),
            settled_requirement("req_right", ANCHOR_SOURCE, false),
        ],
        edges: vec![other],
        ..HandBuiltGraph::default()
    };
    assert!(graph.gaps().is_empty());
}

#[test]
fn open_and_blocked_questions_carry_their_requirement() {
    let graph = HandBuiltGraph {
        sources: vec![source(ANCHOR_SOURCE)],
        requirements: vec![settled_requirement("req_topic", ANCHOR_SOURCE, false)],
        topics: vec![topic("topic_a", false)],
        questions: vec![
            question("question_open", "topic_a", QuestionStatus::Open),
            question("question_blocked", "topic_a", QuestionStatus::BlockedOnHuman),
        ],
        ..HandBuiltGraph::default()
    };
    let gaps = graph.gaps();
    let reasons: Vec<&str> = gaps.iter().map(|gap| gap.reason.as_str()).collect();
    assert_eq!(reasons, vec!["open question", "blocked_on_human question"]);
    assert!(gaps.iter().all(|gap| gap.requirement_id.as_deref() == Some("req_topic")));
}

#[test]
fn graph_query_finds_records_and_producers_by_id() {
    let graph = GapGraph {
        scope: "default".to_string(),
        sources: vec![source("src_1")],
        requirements: vec![requirement("req_1")],
        resolutions: vec![resolution("res_1")],
        rules: vec![rule("rule_1"), rule("rule_2"), rule("rule_3")],
        topics: vec![topic("topic_1", true)],
        questions: Vec::new(),
        edges: vec![
            edge(EdgeType::Produces, (NodeType::Requirement, "req_1"), (NodeType::Rule, "rule_1")),
            edge(EdgeType::Produces, (NodeType::Resolution, "res_gone"), (NodeType::Rule, "rule_2")),
        ],
        threads: Vec::new(),
    };
    let query = GraphQuery::new(&graph);
    assert!(query.source_exists("src_1"));
    assert!(!query.source_exists("req_1"));
    assert!(query.requirement_exists("req_1"));
    assert!(query.resolution_exists("res_1"));
    assert!(!query.resolution_exists("res_gone"));
    assert!(query.topic_exists("topic_1"));
    assert!(query.rule_has_existing_producer("rule_1"));
    assert!(!query.rule_has_existing_producer("rule_2"));
    assert!(!query.rule_has_existing_producer("rule_3"));
}
