//! Graphs whose every chain is complete, and the proof that the gap rule
//! finds nothing in them.
use vstd::prelude::*;
use super::contradiction::contradiction_gaps;
use super::dangling::{
    edge_ref_gaps, edge_ref_gaps_of, question_ref_gaps, question_ref_gaps_of, ref_gaps, requirement_ref_gaps,
    superseded_resolution_gaps, superseded_resolution_gaps_of, superseded_source_gaps, superseded_source_gaps_of,
    topic_ref_gaps, topic_ref_gaps_of,
};
use super::frontier::{
    question_gaps, question_gaps_of, requirement_gaps, requirement_gaps_of, resolution_gaps, resolution_gaps_of,
    rule_gaps, rule_gaps_of, source_gaps, source_gaps_of, topic_gaps, topic_gaps_of,
};
use super::model::{
    GapGraphView, GapItemView, QuestionEntryView, QuestionStatus, RequirementEntryView, ResolutionEntryView,
    ScopedEdgeView, SourceEntryView, TopicEntryView,
};
use super::gaps_of;
use super::dangling::{dangling_gaps, thread_ref_gaps};
use super::query::{
    edge_views, has_valid_source, valid_reference, ids_of_requirements, ids_of_resolutions, ids_of_rules, ids_of_sources, ids_of_topics,
    in_scope, linked, requirement_produces, resolution_produces, resolves_any, resolving, scoped_edges, source_referenced,
};
use crate::store::cache::graph::{any_edge, edge_matches, EdgeType, EdgeView, NodeType};
use crate::store::cache::rules::{
    edge_between, produced_by_resolution, produced_for, produced_for_requirement, produced_from, resolving_ids,
    RuleView,
};

verus! {

/// The ids of the records and edges of one chain.
pub struct ChainIds {
    pub source: Seq<char>,
    pub requirement: Seq<char>,
    pub resolution: Seq<char>,
    pub rule: Seq<char>,
    pub topic: Seq<char>,
    pub question: Seq<char>,
    pub resolves_edge: Seq<char>,
    pub resolution_produces_edge: Seq<char>,
    pub requirement_produces_edge: Seq<char>,
}

/// Edge `m` (0, 1 or 2) of a chain: the resolution resolves the
/// requirement, the resolution produces the rule, the requirement produces
/// the rule.
pub open spec fn chain_edge(scope: Seq<char>, c: ChainIds, m: int) -> ScopedEdgeView {
    if m == 0 {
        ScopedEdgeView {
            id: c.resolves_edge,
            scope_id: scope,
            edge: EdgeView {
                edge_type: EdgeType::Resolves,
                from_type: NodeType::Resolution,
                from_id: c.resolution,
                to_type: NodeType::Requirement,
                to_id: c.requirement,
            },
        }
    } else if m == 1 {
        ScopedEdgeView {
            id: c.resolution_produces_edge,
            scope_id: scope,
            edge: EdgeView {
                edge_type: EdgeType::Produces,
                from_type: NodeType::Resolution,
                from_id: c.resolution,
                to_type: NodeType::Rule,
                to_id: c.rule,
            },
        }
    } else {
        ScopedEdgeView {
            id: c.requirement_produces_edge,
            scope_id: scope,
            edge: EdgeView {
                edge_type: EdgeType::Produces,
                from_type: NodeType::Requirement,
                from_id: c.requirement,
                to_type: NodeType::Rule,
                to_id: c.rule,
            },
        }
    }
}

/// A graph of complete chains. Chain `i` holds a source; a resolved
/// requirement with a domain and a source ref to that source; an approved
/// resolution that resolves the requirement; a rule that both the
/// requirement and the resolution produce; an explored topic on the
/// requirement; and an answered question on the topic.
pub open spec fn complete_graph(scope: Seq<char>, domain: Seq<char>, severity: Seq<char>, chains: Seq<ChainIds>) -> GapGraphView {
    GapGraphView {
        scope,
        sources: chains.map_values(|c: ChainIds| SourceEntryView { id: c.source, superseded_by: None }),
        requirements: chains.map_values(
            |c: ChainIds|
                RequirementEntryView { id: c.requirement, resolved: true, domain_id: Some(domain), source_refs: seq![c.source] },
        ),
        resolutions: chains.map_values(
            |c: ChainIds| ResolutionEntryView { id: c.resolution, approved: true, superseded_by: None },
        ),
        rules: chains.map_values(|c: ChainIds| RuleView { id: c.rule, severity }),
        topics: chains.map_values(
            |c: ChainIds| TopicEntryView { id: c.topic, requirement_id: c.requirement, open: false },
        ),
        questions: chains.map_values(
            |c: ChainIds|
                QuestionEntryView {
                    id: c.question,
                    topic_id: c.topic,
                    requirement_id: c.requirement,
                    status: QuestionStatus::Answered,
                    resolution_id: None,
                },
        ),
        edges: Seq::new(3 * chains.len(), |k: int| chain_edge(scope, chains[k / 3], k % 3)),
        threads: seq![],
    }
}

/// Edges all recorded in the scope are all kept.
pub(crate) proof fn lemma_all_in_scope(edges: Seq<ScopedEdgeView>, scope: Seq<char>)
    requires
        forall|k: int| 0 <= k < edges.len() ==> (#[trigger] edges[k]).scope_id == scope,
    ensures
        in_scope(edges, scope) == edges,
    decreases edges.len(),
{
    if edges.len() > 0 {
        let prior = edges.drop_last();
        assert forall|k: int| 0 <= k < prior.len() implies (#[trigger] prior[k]).scope_id == scope by {
            assert(prior[k] == edges[k]);
        }
        lemma_all_in_scope(prior, scope);
        assert(edges.last().scope_id == scope);
        assert(prior.push(edges.last()) =~= edges);
    }
}

/// In a complete graph, the scope's edges are the chains' edges.
pub(crate) proof fn lemma_chain_edges(scope: Seq<char>, domain: Seq<char>, severity: Seq<char>, chains: Seq<ChainIds>)
    ensures
        scoped_edges(complete_graph(scope, domain, severity, chains)) == complete_graph(scope, domain, severity, chains).edges,
        edge_views(complete_graph(scope, domain, severity, chains)).len() == 3 * chains.len(),
        forall|i: int, m: int|
            0 <= i < chains.len() && 0 <= m < 3 ==> edge_views(complete_graph(scope, domain, severity, chains))[3 * i + m]
                == (#[trigger] chain_edge(scope, chains[i], m)).edge,
{
    let g = complete_graph(scope, domain, severity, chains);
    assert forall|k: int| 0 <= k < g.edges.len() implies (#[trigger] g.edges[k]).scope_id == scope by {}
    lemma_all_in_scope(g.edges, scope);
    assert(scoped_edges(g) == g.edges);
    assert forall|i: int, m: int| 0 <= i < chains.len() && 0 <= m < 3 implies edge_views(g)[3 * i + m] == (
    #[trigger] chain_edge(scope, chains[i], m)).edge by {
        assert((3 * i + m) / 3 == i);
        assert((3 * i + m) % 3 == m);
    }
}

pub(crate) proof fn lemma_resolving_nonempty(ids: Seq<Seq<char>>, ev: Seq<EdgeView>, requirement_id: Seq<char>, j: int)
    requires
        0 <= j < ids.len(),
        any_edge(ev, edge_between(EdgeType::Resolves, NodeType::Resolution, ids[j], NodeType::Requirement, requirement_id)),
    ensures
        resolving_ids(ids, ev, requirement_id).len() > 0,
    decreases ids.len(),
{
    if j < ids.len() - 1 {
        assert(ids.drop_last()[j] == ids[j]);
        lemma_resolving_nonempty(ids.drop_last(), ev, requirement_id, j);
    }
}

pub(crate) proof fn lemma_produced_for_requirement_nonempty(
    rules: Seq<RuleView>,
    ev: Seq<EdgeView>,
    requirement_id: Seq<char>,
    resolving: Seq<Seq<char>>,
    j: int,
)
    requires
        0 <= j < rules.len(),
        produced_for(ev, rules[j].id, requirement_id, resolving),
    ensures
        produced_for_requirement(rules, ev, requirement_id, resolving).len() > 0,
    decreases rules.len(),
{
    if j < rules.len() - 1 {
        assert(rules.drop_last()[j] == rules[j]);
        lemma_produced_for_requirement_nonempty(rules.drop_last(), ev, requirement_id, resolving, j);
    }
}

pub(crate) proof fn lemma_produced_by_resolution_nonempty(rules: Seq<RuleView>, ev: Seq<EdgeView>, resolution_id: Seq<char>, j: int)
    requires
        0 <= j < rules.len(),
        any_edge(ev, edge_between(EdgeType::Produces, NodeType::Resolution, resolution_id, NodeType::Rule, rules[j].id)),
    ensures
        produced_by_resolution(rules, ev, resolution_id).len() > 0,
    decreases rules.len(),
{
    if j < rules.len() - 1 {
        assert(rules.drop_last()[j] == rules[j]);
        lemma_produced_by_resolution_nonempty(rules.drop_last(), ev, resolution_id, j);
    }
}

pub(crate) proof fn lemma_requirement_gaps_empty(g: GapGraphView, s: Seq<RequirementEntryView>)
    requires
        forall|i: int| 0 <= i < s.len() ==> requirement_gaps_of(g, #[trigger] s[i]) == Seq::<GapItemView>::empty(),
    ensures
        requirement_gaps(g, s) == Seq::<GapItemView>::empty(),
    decreases s.len(),
{
    if s.len() > 0 {
        let prior = s.drop_last();
        assert forall|i: int| 0 <= i < prior.len() implies requirement_gaps_of(g, #[trigger] prior[i]) == Seq::<GapItemView>::empty() by {
            assert(prior[i] == s[i]);
        }
        lemma_requirement_gaps_empty(g, prior);
        assert(requirement_gaps_of(g, s[s.len() - 1]) == Seq::<GapItemView>::empty());
        assert(requirement_gaps(g, s) =~= Seq::<GapItemView>::empty());
    }
}

pub(crate) proof fn lemma_resolution_gaps_empty(g: GapGraphView, s: Seq<ResolutionEntryView>)
    requires
        forall|i: int| 0 <= i < s.len() ==> resolution_gaps_of(g, #[trigger] s[i]) == Seq::<GapItemView>::empty(),
    ensures
        resolution_gaps(g, s) == Seq::<GapItemView>::empty(),
    decreases s.len(),
{
    if s.len() > 0 {
        let prior = s.drop_last();
        assert forall|i: int| 0 <= i < prior.len() implies resolution_gaps_of(g, #[trigger] prior[i]) == Seq::<GapItemView>::empty() by {
            assert(prior[i] == s[i]);
        }
        lemma_resolution_gaps_empty(g, prior);
        assert(resolution_gaps_of(g, s[s.len() - 1]) == Seq::<GapItemView>::empty());
        assert(resolution_gaps(g, s) =~= Seq::<GapItemView>::empty());
    }
}

pub(crate) proof fn lemma_rule_gaps_empty(g: GapGraphView, s: Seq<RuleView>)
    requires
        forall|i: int| 0 <= i < s.len() ==> rule_gaps_of(g, #[trigger] s[i]) == Seq::<GapItemView>::empty(),
    ensures
        rule_gaps(g, s) == Seq::<GapItemView>::empty(),
    decreases s.len(),
{
    if s.len() > 0 {
        let prior = s.drop_last();
        assert forall|i: int| 0 <= i < prior.len() implies rule_gaps_of(g, #[trigger] prior[i]) == Seq::<GapItemView>::empty() by {
            assert(prior[i] == s[i]);
        }
        lemma_rule_gaps_empty(g, prior);
        assert(rule_gaps_of(g, s[s.len() - 1]) == Seq::<GapItemView>::empty());
        assert(rule_gaps(g, s) =~= Seq::<GapItemView>::empty());
    }
}

pub(crate) proof fn lemma_source_gaps_empty(g: GapGraphView, s: Seq<SourceEntryView>)
    requires
        forall|i: int| 0 <= i < s.len() ==> source_gaps_of(g, #[trigger] s[i]) == Seq::<GapItemView>::empty(),
    ensures
        source_gaps(g, s) == Seq::<GapItemView>::empty(),
    decreases s.len(),
{
    if s.len() > 0 {
        let prior = s.drop_last();
        assert forall|i: int| 0 <= i < prior.len() implies source_gaps_of(g, #[trigger] prior[i]) == Seq::<GapItemView>::empty() by {
            assert(prior[i] == s[i]);
        }
        lemma_source_gaps_empty(g, prior);
        assert(source_gaps_of(g, s[s.len() - 1]) == Seq::<GapItemView>::empty());
        assert(source_gaps(g, s) =~= Seq::<GapItemView>::empty());
    }
}

pub(crate) proof fn lemma_ref_gaps_empty(g: GapGraphView, id: Seq<char>, s: Seq<Seq<char>>)
    requires
        forall|i: int| 0 <= i < s.len() ==> ids_of_sources(g).contains(#[trigger] s[i]),
    ensures
        ref_gaps(g, id, s) == Seq::<GapItemView>::empty(),
    decreases s.len(),
{
    if s.len() > 0 {
        let prior = s.drop_last();
        assert forall|i: int| 0 <= i < prior.len() implies ids_of_sources(g).contains(#[trigger] prior[i]) by {
            assert(prior[i] == s[i]);
        }
        lemma_ref_gaps_empty(g, id, prior);
        assert(ids_of_sources(g).contains(s[s.len() - 1]));
        assert(ref_gaps(g, id, s) =~= Seq::<GapItemView>::empty());
    }
}

pub(crate) proof fn lemma_requirement_ref_gaps_empty(g: GapGraphView, s: Seq<RequirementEntryView>)
    requires
        forall|i: int| 0 <= i < s.len() ==> ref_gaps(g, (#[trigger] s[i]).id, s[i].source_refs) == Seq::<GapItemView>::empty(),
    ensures
        requirement_ref_gaps(g, s) == Seq::<GapItemView>::empty(),
    decreases s.len(),
{
    if s.len() > 0 {
        let prior = s.drop_last();
        assert forall|i: int| 0 <= i < prior.len() implies ref_gaps(g, (#[trigger] prior[i]).id, prior[i].source_refs)
            == Seq::<GapItemView>::empty() by {
            assert(prior[i] == s[i]);
        }
        lemma_requirement_ref_gaps_empty(g, prior);
        assert(ref_gaps(g, s[s.len() - 1].id, s[s.len() - 1].source_refs) == Seq::<GapItemView>::empty());
        assert(requirement_ref_gaps(g, s) =~= Seq::<GapItemView>::empty());
    }
}

pub(crate) proof fn lemma_contradiction_gaps_empty(g: GapGraphView, s: Seq<ScopedEdgeView>)
    requires
        forall|i: int| 0 <= i < s.len() ==> (#[trigger] s[i]).edge.edge_type != EdgeType::Contradicts,
    ensures
        contradiction_gaps(g, s) == Seq::<GapItemView>::empty(),
    decreases s.len(),
{
    if s.len() > 0 {
        let prior = s.drop_last();
        assert forall|i: int| 0 <= i < prior.len() implies (#[trigger] prior[i]).edge.edge_type != EdgeType::Contradicts by {
            assert(prior[i] == s[i]);
        }
        lemma_contradiction_gaps_empty(g, prior);
        assert(s[s.len() - 1].edge.edge_type != EdgeType::Contradicts);
        assert(contradiction_gaps(g, s) =~= Seq::<GapItemView>::empty());
    }
}

pub(crate) proof fn lemma_superseded_source_gaps_empty(g: GapGraphView, s: Seq<SourceEntryView>)
    requires
        forall|i: int| 0 <= i < s.len() ==> superseded_source_gaps_of(g, #[trigger] s[i]) == Seq::<GapItemView>::empty(),
    ensures
        superseded_source_gaps(g, s) == Seq::<GapItemView>::empty(),
    decreases s.len(),
{
    if s.len() > 0 {
        let prior = s.drop_last();
        assert forall|i: int| 0 <= i < prior.len() implies superseded_source_gaps_of(g, #[trigger] prior[i]) == Seq::<GapItemView>::empty() by {
            assert(prior[i] == s[i]);
        }
        lemma_superseded_source_gaps_empty(g, prior);
        assert(superseded_source_gaps_of(g, s[s.len() - 1]) == Seq::<GapItemView>::empty());
        assert(superseded_source_gaps(g, s) =~= Seq::<GapItemView>::empty());
    }
}

pub(crate) proof fn lemma_superseded_resolution_gaps_empty(g: GapGraphView, s: Seq<ResolutionEntryView>)
    requires
        forall|i: int| 0 <= i < s.len() ==> superseded_resolution_gaps_of(g, #[trigger] s[i]) == Seq::<GapItemView>::empty(),
    ensures
        superseded_resolution_gaps(g, s) == Seq::<GapItemView>::empty(),
    decreases s.len(),
{
    if s.len() > 0 {
        let prior = s.drop_last();
        assert forall|i: int| 0 <= i < prior.len() implies superseded_resolution_gaps_of(g, #[trigger] prior[i]) == Seq::<GapItemView>::empty() by {
            assert(prior[i] == s[i]);
        }
        lemma_superseded_resolution_gaps_empty(g, prior);
        assert(superseded_resolution_gaps_of(g, s[s.len() - 1]) == Seq::<GapItemView>::empty());
        assert(superseded_resolution_gaps(g, s) =~= Seq::<GapItemView>::empty());
    }
}

pub(crate) proof fn lemma_topic_ref_gaps_empty(g: GapGraphView, s: Seq<TopicEntryView>)
    requires
        forall|i: int| 0 <= i < s.len() ==> topic_ref_gaps_of(g, #[trigger] s[i]) == Seq::<GapItemView>::empty(),
    ensures
        topic_ref_gaps(g, s) == Seq::<GapItemView>::empty(),
    decreases s.len(),
{
    if s.len() > 0 {
        let prior = s.drop_last();
        assert forall|i: int| 0 <= i < prior.len() implies topic_ref_gaps_of(g, #[trigger] prior[i]) == Seq::<GapItemView>::empty() by {
            assert(prior[i] == s[i]);
        }
        lemma_topic_ref_gaps_empty(g, prior);
        assert(topic_ref_gaps_of(g, s[s.len() - 1]) == Seq::<GapItemView>::empty());
        assert(topic_ref_gaps(g, s) =~= Seq::<GapItemView>::empty());
    }
}

pub(crate) proof fn lemma_question_ref_gaps_empty(g: GapGraphView, s: Seq<QuestionEntryView>)
    requires
        forall|i: int| 0 <= i < s.len() ==> question_ref_gaps_of(g, #[trigger] s[i]) == Seq::<GapItemView>::empty(),
    ensures
        question_ref_gaps(g, s) == Seq::<GapItemView>::empty(),
    decreases s.len(),
{
    if s.len() > 0 {
        let prior = s.drop_last();
        assert forall|i: int| 0 <= i < prior.len() implies question_ref_gaps_of(g, #[trigger] prior[i]) == Seq::<GapItemView>::empty() by {
            assert(prior[i] == s[i]);
        }
        lemma_question_ref_gaps_empty(g, prior);
        assert(question_ref_gaps_of(g, s[s.len() - 1]) == Seq::<GapItemView>::empty());
        assert(question_ref_gaps(g, s) =~= Seq::<GapItemView>::empty());
    }
}

pub(crate) proof fn lemma_edge_ref_gaps_empty(g: GapGraphView, s: Seq<ScopedEdgeView>)
    requires
        forall|i: int| 0 <= i < s.len() ==> edge_ref_gaps_of(g, #[trigger] s[i]) == Seq::<GapItemView>::empty(),
    ensures
        edge_ref_gaps(g, s) == Seq::<GapItemView>::empty(),
    decreases s.len(),
{
    if s.len() > 0 {
        let prior = s.drop_last();
        assert forall|i: int| 0 <= i < prior.len() implies edge_ref_gaps_of(g, #[trigger] prior[i]) == Seq::<GapItemView>::empty() by {
            assert(prior[i] == s[i]);
        }
        lemma_edge_ref_gaps_empty(g, prior);
        assert(edge_ref_gaps_of(g, s[s.len() - 1]) == Seq::<GapItemView>::empty());
        assert(edge_ref_gaps(g, s) =~= Seq::<GapItemView>::empty());
    }
}

pub(crate) proof fn lemma_question_gaps_empty(s: Seq<QuestionEntryView>)
    requires
        forall|i: int| 0 <= i < s.len() ==> question_gaps_of(#[trigger] s[i]) == Seq::<GapItemView>::empty(),
    ensures
        question_gaps(s) == Seq::<GapItemView>::empty(),
    decreases s.len(),
{
    if s.len() > 0 {
        let prior = s.drop_last();
        assert forall|i: int| 0 <= i < prior.len() implies question_gaps_of(#[trigger] prior[i]) == Seq::<GapItemView>::empty() by {
            assert(prior[i] == s[i]);
        }
        lemma_question_gaps_empty(prior);
        assert(question_gaps_of(s[s.len() - 1]) == Seq::<GapItemView>::empty());
        assert(question_gaps(s) =~= Seq::<GapItemView>::empty());
    }
}

pub(crate) proof fn lemma_topic_gaps_empty(s: Seq<TopicEntryView>)
    requires
        forall|i: int| 0 <= i < s.len() ==> topic_gaps_of(#[trigger] s[i]) == Seq::<GapItemView>::empty(),
    ensures
        topic_gaps(s) == Seq::<GapItemView>::empty(),
    decreases s.len(),
{
    if s.len() > 0 {
        let prior = s.drop_last();
        assert forall|i: int| 0 <= i < prior.len() implies topic_gaps_of(#[trigger] prior[i]) == Seq::<GapItemView>::empty() by {
            assert(prior[i] == s[i]);
        }
        lemma_topic_gaps_empty(prior);
        assert(topic_gaps_of(s[s.len() - 1]) == Seq::<GapItemView>::empty());
        assert(topic_gaps(s) =~= Seq::<GapItemView>::empty());
    }
}

pub(crate) proof fn lemma_complete_requirements(scope: Seq<char>, domain: Seq<char>, severity: Seq<char>, chains: Seq<ChainIds>)
    ensures
        ({
            let g = complete_graph(scope, domain, severity, chains);
            requirement_gaps(g, g.requirements) == Seq::<GapItemView>::empty()
        }),
{
    let g = complete_graph(scope, domain, severity, chains);
    let ev = edge_views(g);
    lemma_chain_edges(scope, domain, severity, chains);
    assert forall|i: int| 0 <= i < g.requirements.len() implies requirement_gaps_of(g, #[trigger] g.requirements[i])
        == Seq::<GapItemView>::empty() by {
        let c = chains[i];
        let r = g.requirements[i];
        assert(ids_of_sources(g)[i] == c.source);
        assert(r.source_refs[0] == c.source);
        assert(ids_of_sources(g).contains(r.source_refs[0]));
        assert(has_valid_source(g, r));
        assert(ev[3 * i + 0] == chain_edge(scope, c, 0).edge);
        assert(edge_matches(
            ev[3 * i],
            edge_between(EdgeType::Resolves, NodeType::Resolution, c.resolution, NodeType::Requirement, c.requirement),
        ));
        assert(ids_of_resolutions(g)[i] == c.resolution);
        lemma_resolving_nonempty(ids_of_resolutions(g), ev, c.requirement, i);
        assert(ev[3 * i + 2] == chain_edge(scope, c, 2).edge);
        assert(produced_from(ev[3 * i + 2], c.rule, c.requirement, resolving(g, c.requirement)));
        assert(g.rules[i].id == c.rule);
        lemma_produced_for_requirement_nonempty(g.rules, ev, c.requirement, resolving(g, c.requirement), i);
        assert(requirement_gaps_of(g, r) =~= Seq::<GapItemView>::empty());
    }
    lemma_requirement_gaps_empty(g, g.requirements);
}

pub(crate) proof fn lemma_complete_resolutions(scope: Seq<char>, domain: Seq<char>, severity: Seq<char>, chains: Seq<ChainIds>)
    ensures
        ({
            let g = complete_graph(scope, domain, severity, chains);
            resolution_gaps(g, g.resolutions) == Seq::<GapItemView>::empty()
        }),
{
    let g = complete_graph(scope, domain, severity, chains);
    let ev = edge_views(g);
    lemma_chain_edges(scope, domain, severity, chains);
    assert forall|i: int| 0 <= i < g.resolutions.len() implies resolution_gaps_of(g, #[trigger] g.resolutions[i])
        == Seq::<GapItemView>::empty() by {
        let c = chains[i];
        let r = g.resolutions[i];
        assert(ev[3 * i + 0] == chain_edge(scope, c, 0).edge);
        assert(ids_of_requirements(g)[i] == c.requirement);
        assert(edge_matches(
            ev[3 * i],
            edge_between(EdgeType::Resolves, NodeType::Resolution, c.resolution, NodeType::Requirement, c.requirement),
        ));
        assert(linked(g, EdgeType::Resolves, NodeType::Resolution, c.resolution, NodeType::Requirement, ids_of_requirements(g)[i]));
        assert(resolves_any(g, r.id));
        assert(ev[3 * i + 1] == chain_edge(scope, c, 1).edge);
        assert(g.rules[i].id == c.rule);
        assert(edge_matches(
            ev[3 * i + 1],
            edge_between(EdgeType::Produces, NodeType::Resolution, c.resolution, NodeType::Rule, c.rule),
        ));
        lemma_produced_by_resolution_nonempty(g.rules, ev, c.resolution, i);
        assert(resolution_gaps_of(g, r) =~= Seq::<GapItemView>::empty());
    }
    lemma_resolution_gaps_empty(g, g.resolutions);
}

pub(crate) proof fn lemma_complete_rules(scope: Seq<char>, domain: Seq<char>, severity: Seq<char>, chains: Seq<ChainIds>)
    ensures
        ({
            let g = complete_graph(scope, domain, severity, chains);
            rule_gaps(g, g.rules) == Seq::<GapItemView>::empty()
        }),
{
    let g = complete_graph(scope, domain, severity, chains);
    let ev = edge_views(g);
    lemma_chain_edges(scope, domain, severity, chains);
    assert forall|i: int| 0 <= i < g.rules.len() implies rule_gaps_of(g, #[trigger] g.rules[i]) == Seq::<GapItemView>::empty() by {
        let c = chains[i];
        assert(ev[3 * i + 1] == chain_edge(scope, c, 1).edge);
        assert(ev[3 * i + 2] == chain_edge(scope, c, 2).edge);
        assert(ids_of_requirements(g)[i] == c.requirement);
        assert(ids_of_resolutions(g)[i] == c.resolution);
        assert(edge_matches(
            ev[3 * i + 2],
            edge_between(EdgeType::Produces, NodeType::Requirement, c.requirement, NodeType::Rule, c.rule),
        ));
        assert(edge_matches(
            ev[3 * i + 1],
            edge_between(EdgeType::Produces, NodeType::Resolution, c.resolution, NodeType::Rule, c.rule),
        ));
        assert(linked(g, EdgeType::Produces, NodeType::Requirement, ids_of_requirements(g)[i], NodeType::Rule, c.rule));
        assert(linked(g, EdgeType::Produces, NodeType::Resolution, ids_of_resolutions(g)[i], NodeType::Rule, c.rule));
        assert(requirement_produces(g, g.rules[i].id));
        assert(resolution_produces(g, g.rules[i].id));
        assert(rule_gaps_of(g, g.rules[i]) =~= Seq::<GapItemView>::empty());
    }
    lemma_rule_gaps_empty(g, g.rules);
}

pub(crate) proof fn lemma_complete_sources(scope: Seq<char>, domain: Seq<char>, severity: Seq<char>, chains: Seq<ChainIds>)
    ensures
        ({
            let g = complete_graph(scope, domain, severity, chains);
            source_gaps(g, g.sources) == Seq::<GapItemView>::empty()
        }),
{
    let g = complete_graph(scope, domain, severity, chains);
    let ev = edge_views(g);
    lemma_chain_edges(scope, domain, severity, chains);
    assert forall|i: int| 0 <= i < g.sources.len() implies source_gaps_of(g, #[trigger] g.sources[i])
        == Seq::<GapItemView>::empty() by {
        let c = chains[i];
        assert(g.requirements[i].source_refs[0] == c.source);
        assert(g.requirements[i].source_refs.contains(c.source));
        assert(source_referenced(g, g.sources[i].id));
        assert(source_gaps_of(g, g.sources[i]) =~= Seq::<GapItemView>::empty());
    }
    lemma_source_gaps_empty(g, g.sources);
}

pub(crate) proof fn lemma_complete_dangling(scope: Seq<char>, domain: Seq<char>, severity: Seq<char>, chains: Seq<ChainIds>)
    ensures
        ({
            let g = complete_graph(scope, domain, severity, chains);
            dangling_gaps(g) == Seq::<GapItemView>::empty()
        }),
{
    let g = complete_graph(scope, domain, severity, chains);
    let ev = edge_views(g);
    lemma_chain_edges(scope, domain, severity, chains);
    assert forall|i: int| 0 <= i < g.requirements.len() implies ref_gaps(
        g,
        (#[trigger] g.requirements[i]).id,
        g.requirements[i].source_refs,
    ) == Seq::<GapItemView>::empty() by {
        let refs = g.requirements[i].source_refs;
        assert forall|k: int| 0 <= k < refs.len() implies ids_of_sources(g).contains(#[trigger] refs[k]) by {
            assert(refs[k] == chains[i].source);
            assert(ids_of_sources(g)[i] == chains[i].source);
        }
        lemma_ref_gaps_empty(g, g.requirements[i].id, refs);
    }
    lemma_requirement_ref_gaps_empty(g, g.requirements);
    assert forall|i: int| 0 <= i < g.sources.len() implies superseded_source_gaps_of(g, #[trigger] g.sources[i])
        == Seq::<GapItemView>::empty() by {}
    lemma_superseded_source_gaps_empty(g, g.sources);
    assert forall|i: int| 0 <= i < g.resolutions.len() implies superseded_resolution_gaps_of(
        g,
        #[trigger] g.resolutions[i],
    ) == Seq::<GapItemView>::empty() by {}
    lemma_superseded_resolution_gaps_empty(g, g.resolutions);
    assert forall|i: int| 0 <= i < g.topics.len() implies topic_ref_gaps_of(g, #[trigger] g.topics[i])
        == Seq::<GapItemView>::empty() by {
        assert(ids_of_requirements(g)[i] == chains[i].requirement);
        assert(topic_ref_gaps_of(g, g.topics[i]) =~= Seq::<GapItemView>::empty());
    }
    lemma_topic_ref_gaps_empty(g, g.topics);
    assert forall|i: int| 0 <= i < g.questions.len() implies question_ref_gaps_of(g, #[trigger] g.questions[i])
        == Seq::<GapItemView>::empty() by {
        assert(ids_of_requirements(g)[i] == chains[i].requirement);
        assert(ids_of_topics(g)[i] == chains[i].topic);
        assert(question_ref_gaps_of(g, g.questions[i]) =~= Seq::<GapItemView>::empty());
    }
    lemma_question_ref_gaps_empty(g, g.questions);
    assert(thread_ref_gaps(g, g.threads) =~= Seq::<GapItemView>::empty());
    let es = scoped_edges(g);
    assert forall|k: int| 0 <= k < es.len() implies edge_ref_gaps_of(g, #[trigger] es[k]) == Seq::<GapItemView>::empty() by {
        let i = k / 3;
        let c = chains[i];
        assert(es[k] == g.edges[k]);
        assert(ids_of_requirements(g)[i] == c.requirement);
        assert(ids_of_resolutions(g)[i] == c.resolution);
        assert(ids_of_rules(g)[i] == c.rule);
        assert(edge_ref_gaps_of(g, es[k]) =~= Seq::<GapItemView>::empty());
    }
    lemma_edge_ref_gaps_empty(g, es);
    assert(dangling_gaps(g) =~= Seq::<GapItemView>::empty());
}

pub(crate) proof fn lemma_complete_rest(scope: Seq<char>, domain: Seq<char>, severity: Seq<char>, chains: Seq<ChainIds>)
    ensures
        ({
            let g = complete_graph(scope, domain, severity, chains);
            contradiction_gaps(g, scoped_edges(g)) + question_gaps(g.questions) + topic_gaps(g.topics) == Seq::<GapItemView>::empty()
        }),
{
    let g = complete_graph(scope, domain, severity, chains);
    let ev = edge_views(g);
    lemma_chain_edges(scope, domain, severity, chains);
    let es = scoped_edges(g);
    assert forall|k: int| 0 <= k < es.len() implies (#[trigger] es[k]).edge.edge_type != EdgeType::Contradicts by {
        assert(es[k] == g.edges[k]);
    }
    lemma_contradiction_gaps_empty(g, es);
    assert forall|i: int| 0 <= i < g.questions.len() implies question_gaps_of(#[trigger] g.questions[i])
        == Seq::<GapItemView>::empty() by {}
    lemma_question_gaps_empty(g.questions);
    assert forall|i: int| 0 <= i < g.topics.len() implies topic_gaps_of(#[trigger] g.topics[i]) == Seq::<GapItemView>::empty() by {}
    lemma_topic_gaps_empty(g.topics);
    assert(contradiction_gaps(g, scoped_edges(g)) + question_gaps(g.questions) + topic_gaps(g.topics) =~= Seq::<GapItemView>::empty());
}

/// A graph of complete chains has no gaps, whatever the ids, the scope, the
/// domain and the rules' severity.
pub proof fn law_complete_graph_has_no_gaps(
    scope: Seq<char>,
    domain: Seq<char>,
    severity: Seq<char>,
    chains: Seq<ChainIds>,
)
    ensures
        gaps_of(complete_graph(scope, domain, severity, chains)) == Seq::<GapItemView>::empty(),
{
    let g = complete_graph(scope, domain, severity, chains);
    lemma_complete_requirements(scope, domain, severity, chains);
    lemma_complete_resolutions(scope, domain, severity, chains);
    lemma_complete_rules(scope, domain, severity, chains);
    lemma_complete_sources(scope, domain, severity, chains);
    lemma_complete_dangling(scope, domain, severity, chains);
    lemma_complete_rest(scope, domain, severity, chains);
    assert(gaps_of(g) =~= Seq::<GapItemView>::empty());
}

/// No two chains share a requirement, a resolution or a rule id.
pub open spec fn chains_distinct(chains: Seq<ChainIds>) -> bool {
    forall|i: int, j: int|
        0 <= i < chains.len() && 0 <= j < chains.len() && i != j ==> {
            &&& (#[trigger] chains[i]).requirement != (#[trigger] chains[j]).requirement
            &&& chains[i].resolution != chains[j].resolution
            &&& chains[i].rule != chains[j].rule
        }
}

/// The graph without its `k`-th edge.
pub open spec fn without_edge(g: GapGraphView, k: int) -> GapGraphView {
    GapGraphView { edges: g.edges.remove(k), ..g }
}

/// The graph with the source refs of its `i`-th requirement cleared.
pub open spec fn without_source_refs(g: GapGraphView, i: int) -> GapGraphView {
    GapGraphView {
        requirements: g.requirements.update(i, RequirementEntryView { source_refs: seq![], ..g.requirements[i] }),
        ..g
    }
}

/// Where edge `t` of the graph without edge `k` came from.
pub open spec fn kept_index(k: int, t: int) -> int {
    if t < k {
        t
    } else {
        t + 1
    }
}

pub(crate) proof fn lemma_removed_edge_views(
    scope: Seq<char>,
    domain: Seq<char>,
    severity: Seq<char>,
    chains: Seq<ChainIds>,
    k: int,
)
    requires
        0 <= k < 3 * chains.len(),
    ensures
        ({
            let g = without_edge(complete_graph(scope, domain, severity, chains), k);
            &&& edge_views(g).len() == 3 * chains.len() - 1
            &&& forall|t: int|
                0 <= t < 3 * chains.len() - 1 ==> edge_views(g)[t] == chain_edge(
                    scope,
                    chains[kept_index(k, t) / 3],
                    kept_index(k, t) % 3,
                ).edge
        }),
{
    let g = without_edge(complete_graph(scope, domain, severity, chains), k);
    assert forall|j: int| 0 <= j < g.edges.len() implies (#[trigger] g.edges[j]).scope_id == scope by {
        assert(g.edges[j] == complete_graph(scope, domain, severity, chains).edges[kept_index(k, j)]);
    }
    lemma_all_in_scope(g.edges, scope);
    assert forall|t: int| 0 <= t < 3 * chains.len() - 1 implies edge_views(g)[t] == chain_edge(
        scope,
        chains[kept_index(k, t) / 3],
        kept_index(k, t) % 3,
    ).edge by {
        assert(g.edges[t] == complete_graph(scope, domain, severity, chains).edges[kept_index(k, t)]);
    }
}

pub(crate) proof fn lemma_resolution_gaps_nonempty(g: GapGraphView, s: Seq<ResolutionEntryView>, i: int)
    requires
        0 <= i < s.len(),
        resolution_gaps_of(g, s[i]).len() > 0,
    ensures
        resolution_gaps(g, s).len() > 0,
    decreases s.len(),
{
    if i < s.len() - 1 {
        assert(s.drop_last()[i] == s[i]);
        lemma_resolution_gaps_nonempty(g, s.drop_last(), i);
    }
}

pub(crate) proof fn lemma_rule_gaps_nonempty(g: GapGraphView, s: Seq<RuleView>, i: int)
    requires
        0 <= i < s.len(),
        rule_gaps_of(g, s[i]).len() > 0,
    ensures
        rule_gaps(g, s).len() > 0,
    decreases s.len(),
{
    if i < s.len() - 1 {
        assert(s.drop_last()[i] == s[i]);
        lemma_rule_gaps_nonempty(g, s.drop_last(), i);
    }
}

pub(crate) proof fn lemma_requirement_gaps_nonempty(g: GapGraphView, s: Seq<RequirementEntryView>, i: int)
    requires
        0 <= i < s.len(),
        requirement_gaps_of(g, s[i]).len() > 0,
    ensures
        requirement_gaps(g, s).len() > 0,
    decreases s.len(),
{
    if i < s.len() - 1 {
        assert(s.drop_last()[i] == s[i]);
        lemma_requirement_gaps_nonempty(g, s.drop_last(), i);
    }
}

/// Taking any one edge out of a graph of complete chains with distinct ids
/// leaves a gap: a resolution that resolves nothing, or a rule that lacks
/// one of its producers.
pub proof fn law_removing_an_edge_opens_a_gap(
    scope: Seq<char>,
    domain: Seq<char>,
    severity: Seq<char>,
    chains: Seq<ChainIds>,
    k: int,
)
    requires
        chains_distinct(chains),
        0 <= k < 3 * chains.len(),
    ensures
        gaps_of(without_edge(complete_graph(scope, domain, severity, chains), k)).len() > 0,
{
    let g = without_edge(complete_graph(scope, domain, severity, chains), k);
    let ev = edge_views(g);
    let i = k / 3;
    let m = k % 3;
    let c = chains[i];
    lemma_removed_edge_views(scope, domain, severity, chains, k);
    if m == 0 {
        if resolves_any(g, c.resolution) {
            let kk = choose|kk: int|
                0 <= kk < ids_of_requirements(g).len() && linked(
                    g,
                    EdgeType::Resolves,
                    NodeType::Resolution,
                    c.resolution,
                    NodeType::Requirement,
                    #[trigger] ids_of_requirements(g)[kk],
                );
            let p = edge_between(
                EdgeType::Resolves,
                NodeType::Resolution,
                c.resolution,
                NodeType::Requirement,
                ids_of_requirements(g)[kk],
            );
            let t = choose|t: int| 0 <= t < ev.len() && edge_matches(#[trigger] ev[t], p);
            let tt = kept_index(k, t);
            assert(ev[t] == chain_edge(scope, chains[tt / 3], tt % 3).edge);
            assert(tt % 3 == 0);
            assert(chains[tt / 3].resolution == c.resolution);
            assert(tt / 3 == i);
            assert(false);
        }
        assert(g.resolutions[i].id == c.resolution);
        assert(resolution_gaps_of(g, g.resolutions[i]).len() > 0);
        lemma_resolution_gaps_nonempty(g, g.resolutions, i);
    } else if m == 1 {
        if resolution_produces(g, c.rule) {
            let kk = choose|kk: int|
                0 <= kk < ids_of_resolutions(g).len() && linked(
                    g,
                    EdgeType::Produces,
                    NodeType::Resolution,
                    #[trigger] ids_of_resolutions(g)[kk],
                    NodeType::Rule,
                    c.rule,
                );
            let p = edge_between(EdgeType::Produces, NodeType::Resolution, ids_of_resolutions(g)[kk], NodeType::Rule, c.rule);
            let t = choose|t: int| 0 <= t < ev.len() && edge_matches(#[trigger] ev[t], p);
            let tt = kept_index(k, t);
            assert(ev[t] == chain_edge(scope, chains[tt / 3], tt % 3).edge);
            assert(tt % 3 == 1);
            assert(chains[tt / 3].rule == c.rule);
            assert(tt / 3 == i);
            assert(false);
        }
        assert(g.rules[i].id == c.rule);
        assert(rule_gaps_of(g, g.rules[i]).len() > 0);
        lemma_rule_gaps_nonempty(g, g.rules, i);
    } else {
        if requirement_produces(g, c.rule) {
            let kk = choose|kk: int|
                0 <= kk < ids_of_requirements(g).len() && linked(
                    g,
                    EdgeType::Produces,
                    NodeType::Requirement,
                    #[trigger] ids_of_requirements(g)[kk],
                    NodeType::Rule,
                    c.rule,
                );
            let p = edge_between(EdgeType::Produces, NodeType::Requirement, ids_of_requirements(g)[kk], NodeType::Rule, c.rule);
            let t = choose|t: int| 0 <= t < ev.len() && edge_matches(#[trigger] ev[t], p);
            let tt = kept_index(k, t);
            assert(ev[t] == chain_edge(scope, chains[tt / 3], tt % 3).edge);
            assert(tt % 3 == 2);
            assert(chains[tt / 3].rule == c.rule);
            assert(tt / 3 == i);
            assert(false);
        }
        assert(g.rules[i].id == c.rule);
        assert(rule_gaps_of(g, g.rules[i]).len() > 0);
        lemma_rule_gaps_nonempty(g, g.rules, i);
    }
}

/// Clearing the source refs of any requirement of a graph of complete
/// chains leaves that requirement without a source.
pub proof fn law_removing_a_source_ref_opens_a_gap(
    scope: Seq<char>,
    domain: Seq<char>,
    severity: Seq<char>,
    chains: Seq<ChainIds>,
    i: int,
)
    requires
        0 <= i < chains.len(),
    ensures
        gaps_of(without_source_refs(complete_graph(scope, domain, severity, chains), i)).len() > 0,
{
    let g0 = complete_graph(scope, domain, severity, chains);
    let g = without_source_refs(g0, i);
    let r = g.requirements[i];
    lemma_chain_edges(scope, domain, severity, chains);
    assert(edge_views(g) == edge_views(g0));
    if has_valid_source(g, r) {
        let ev = edge_views(g);
        let t = choose|t: int| 0 <= t < ev.len() && valid_reference(g, #[trigger] ev[t], r.id);
        assert(ev[t] == chain_edge(scope, chains[t / 3], t % 3).edge) by {
            assert(t == 3 * (t / 3) + t % 3);
        }
        assert(false);
    }
    assert(requirement_gaps_of(g, r).len() > 0);
    lemma_requirement_gaps_nonempty(g, g.requirements, i);
}

} // verus!
