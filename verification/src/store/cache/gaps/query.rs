//! What the gap rule asks of a graph: which records exist, which edges of
//! the scope link them, and what was produced downstream.
use vstd::prelude::*;
use super::model::{
    GapGraph, GapGraphView, RequirementEntry, RequirementEntryView, ScopedEdge, ScopedEdgeView,
};
use crate::store::cache::graph::{
    any_edge, contains_id, copy_edge, edges_view, has_edge, ids_view, Edge, EdgePattern, EdgeType, EdgeView,
    NodeType,
};
use crate::store::cache::rules::{
    edge_between, produced_by_resolution, produced_for_requirement, resolving_ids,
    resolving_resolutions as rules_resolving, rules_view, DownstreamRuleQuery,
    RuleRecord,
};
use crate::text::str_equal;

verus! {

/// The edges recorded in `scope`, in order.
pub open spec fn in_scope(edges: Seq<ScopedEdgeView>, scope: Seq<char>) -> Seq<ScopedEdgeView>
    decreases edges.len(),
{
    if edges.len() == 0 {
        seq![]
    } else {
        in_scope(edges.drop_last(), scope) + if edges.last().scope_id == scope {
            seq![edges.last()]
        } else {
            seq![]
        }
    }
}

/// The graph's edges of its own scope.
pub open spec fn scoped_edges(g: GapGraphView) -> Seq<ScopedEdgeView> {
    in_scope(g.edges, g.scope)
}

/// The endpoints of the graph's edges of its own scope.
pub open spec fn edge_views(g: GapGraphView) -> Seq<EdgeView> {
    scoped_edges(g).map_values(|e: ScopedEdgeView| e.edge)
}

pub open spec fn ids_of_sources(g: GapGraphView) -> Seq<Seq<char>> {
    g.sources.map_values(|x: super::model::SourceEntryView| x.id)
}

pub open spec fn ids_of_requirements(g: GapGraphView) -> Seq<Seq<char>> {
    g.requirements.map_values(|x: RequirementEntryView| x.id)
}

pub open spec fn ids_of_resolutions(g: GapGraphView) -> Seq<Seq<char>> {
    g.resolutions.map_values(|x: super::model::ResolutionEntryView| x.id)
}

pub open spec fn ids_of_rules(g: GapGraphView) -> Seq<Seq<char>> {
    g.rules.map_values(|x: crate::store::cache::rules::RuleView| x.id)
}

pub open spec fn ids_of_topics(g: GapGraphView) -> Seq<Seq<char>> {
    g.topics.map_values(|x: super::model::TopicEntryView| x.id)
}

pub open spec fn ids_of_questions(g: GapGraphView) -> Seq<Seq<char>> {
    g.questions.map_values(|x: super::model::QuestionEntryView| x.id)
}

/// The graph holds a record of this kind and id.
pub open spec fn node_exists(g: GapGraphView, node_type: NodeType, id: Seq<char>) -> bool {
    match node_type {
        NodeType::Source => ids_of_sources(g).contains(id),
        NodeType::Requirement => ids_of_requirements(g).contains(id),
        NodeType::Resolution => ids_of_resolutions(g).contains(id),
        NodeType::Rule => ids_of_rules(g).contains(id),
        NodeType::Topic => ids_of_topics(g).contains(id),
        NodeType::Question => ids_of_questions(g).contains(id),
    }
}

/// An edge of the scope of this kind links the two records.
pub open spec fn linked(
    g: GapGraphView,
    edge_type: EdgeType,
    from_type: NodeType,
    from_id: Seq<char>,
    to_type: NodeType,
    to_id: Seq<char>,
) -> bool {
    any_edge(edge_views(g), edge_between(edge_type, from_type, from_id, to_type, to_id))
}

/// An edge of the scope of this kind runs from one of the records `ids` to
/// the given record.
pub open spec fn links_from_any(
    g: GapGraphView,
    ids: Seq<Seq<char>>,
    edge_type: EdgeType,
    from_type: NodeType,
    to_type: NodeType,
    to_id: Seq<char>,
) -> bool {
    exists|k: int| 0 <= k < ids.len() && linked(g, edge_type, from_type, #[trigger] ids[k], to_type, to_id)
}

/// An edge of the scope of this kind runs from the given record to one of
/// the records `ids`.
pub open spec fn links_to_any(
    g: GapGraphView,
    edge_type: EdgeType,
    from_type: NodeType,
    from_id: Seq<char>,
    ids: Seq<Seq<char>>,
    to_type: NodeType,
) -> bool {
    exists|k: int| 0 <= k < ids.len() && linked(g, edge_type, from_type, from_id, to_type, #[trigger] ids[k])
}

/// The resolutions, in order, that resolve the requirement.
pub open spec fn resolving(g: GapGraphView, requirement_id: Seq<char>) -> Seq<Seq<char>> {
    resolving_ids(ids_of_resolutions(g), edge_views(g), requirement_id)
}

/// The resolution resolves some requirement of the graph.
pub open spec fn resolves_any(g: GapGraphView, resolution_id: Seq<char>) -> bool {
    links_to_any(g, EdgeType::Resolves, NodeType::Resolution, resolution_id, ids_of_requirements(g), NodeType::Requirement)
}

/// Some requirement of the graph produces the rule.
pub open spec fn requirement_produces(g: GapGraphView, rule_id: Seq<char>) -> bool {
    links_from_any(g, ids_of_requirements(g), EdgeType::Produces, NodeType::Requirement, NodeType::Rule, rule_id)
}

/// Some resolution of the graph produces the rule.
pub open spec fn resolution_produces(g: GapGraphView, rule_id: Seq<char>) -> bool {
    links_from_any(g, ids_of_resolutions(g), EdgeType::Produces, NodeType::Resolution, NodeType::Rule, rule_id)
}

/// A `references` edge from an existing source to the requirement.
pub open spec fn valid_reference(g: GapGraphView, e: EdgeView, requirement_id: Seq<char>) -> bool {
    &&& e.edge_type == EdgeType::References
    &&& e.from_type == NodeType::Source
    &&& ids_of_sources(g).contains(e.from_id)
    &&& e.to_type == NodeType::Requirement
    &&& e.to_id == requirement_id
}

/// One of the requirement's source refs names an existing source, or an
/// existing source references it by an edge.
pub open spec fn has_valid_source(g: GapGraphView, r: RequirementEntryView) -> bool {
    ||| exists|k: int| 0 <= k < r.source_refs.len() && ids_of_sources(g).contains(#[trigger] r.source_refs[k])
    ||| exists|i: int| 0 <= i < edge_views(g).len() && valid_reference(g, #[trigger] edge_views(g)[i], r.id)
}

/// Some requirement names the source in a source ref, or the source
/// references some requirement by an edge.
pub open spec fn source_referenced(g: GapGraphView, source_id: Seq<char>) -> bool {
    ||| exists|k: int| 0 <= k < g.requirements.len() && #[trigger] g.requirements[k].source_refs.contains(source_id)
    ||| links_to_any(g, EdgeType::References, NodeType::Source, source_id, ids_of_requirements(g), NodeType::Requirement)
}

/// Some rule is produced downstream of the requirement.
pub open spec fn has_rules_for_requirement(g: GapGraphView, requirement_id: Seq<char>) -> bool {
    produced_for_requirement(g.rules, edge_views(g), requirement_id, resolving(g, requirement_id)).len() > 0
}

/// Some rule is produced by the resolution.
pub open spec fn has_rules_for_resolution(g: GapGraphView, resolution_id: Seq<char>) -> bool {
    produced_by_resolution(g.rules, edge_views(g), resolution_id).len() > 0
}

/// The graph with its scope's edges and its record ids laid out for lookups.
pub struct GraphQuery<'a> {
    pub graph: &'a GapGraph,
    pub edges: Vec<Edge>,
    pub scoped: Vec<ScopedEdge>,
    pub source_ids: Vec<String>,
    pub requirement_ids: Vec<String>,
    pub resolution_ids: Vec<String>,
    pub rule_ids: Vec<String>,
    pub topic_ids: Vec<String>,
    pub question_ids: Vec<String>,
}

impl<'a> GraphQuery<'a> {
    pub open spec fn wf(&self) -> bool {
        let g = self.graph@;
        &&& self.scoped@.map_values(|e: ScopedEdge| e@) == scoped_edges(g)
        &&& edges_view(self.edges@) == edge_views(g)
        &&& ids_view(self.source_ids@) == ids_of_sources(g)
        &&& ids_view(self.requirement_ids@) == ids_of_requirements(g)
        &&& ids_view(self.resolution_ids@) == ids_of_resolutions(g)
        &&& ids_view(self.rule_ids@) == ids_of_rules(g)
        &&& ids_view(self.topic_ids@) == ids_of_topics(g)
        &&& ids_view(self.question_ids@) == ids_of_questions(g)
    }

    pub fn new(graph: &'a GapGraph) -> (q: GraphQuery<'a>)
        ensures
            q.wf(),
            q.graph == graph,
    {
        let (edges, scoped) = scope_edges(graph);
        let mut source_ids: Vec<String> = Vec::new();
        let mut i: usize = 0;
        while i < graph.sources.len()
            invariant
                0 <= i <= graph.sources@.len(),
                ids_view(source_ids@) == ids_of_sources(graph@).subrange(0, i as int),
            decreases graph.sources@.len() - i,
        {
            let ghost prev = source_ids@;
            source_ids.push(graph.sources[i].id.clone());
            assert(ids_of_sources(graph@)[i as int] == graph.sources@[i as int].id@);
            assert(ids_view(source_ids@) =~= ids_view(prev).push(graph.sources@[i as int].id@));
            assert(ids_view(source_ids@) =~= ids_of_sources(graph@).subrange(0, i + 1));
            i = i + 1;
        }
        assert(ids_of_sources(graph@).subrange(0, graph.sources@.len() as int) =~= ids_of_sources(graph@));
        let mut requirement_ids: Vec<String> = Vec::new();
        let mut i: usize = 0;
        while i < graph.requirements.len()
            invariant
                0 <= i <= graph.requirements@.len(),
                ids_view(requirement_ids@) == ids_of_requirements(graph@).subrange(0, i as int),
            decreases graph.requirements@.len() - i,
        {
            let ghost prev = requirement_ids@;
            requirement_ids.push(graph.requirements[i].id.clone());
            assert(ids_of_requirements(graph@)[i as int] == graph.requirements@[i as int].id@);
            assert(ids_view(requirement_ids@) =~= ids_view(prev).push(graph.requirements@[i as int].id@));
            assert(ids_view(requirement_ids@) =~= ids_of_requirements(graph@).subrange(0, i + 1));
            i = i + 1;
        }
        assert(ids_of_requirements(graph@).subrange(0, graph.requirements@.len() as int) =~= ids_of_requirements(graph@));
        let mut resolution_ids: Vec<String> = Vec::new();
        let mut i: usize = 0;
        while i < graph.resolutions.len()
            invariant
                0 <= i <= graph.resolutions@.len(),
                ids_view(resolution_ids@) == ids_of_resolutions(graph@).subrange(0, i as int),
            decreases graph.resolutions@.len() - i,
        {
            let ghost prev = resolution_ids@;
            resolution_ids.push(graph.resolutions[i].id.clone());
            assert(ids_of_resolutions(graph@)[i as int] == graph.resolutions@[i as int].id@);
            assert(ids_view(resolution_ids@) =~= ids_view(prev).push(graph.resolutions@[i as int].id@));
            assert(ids_view(resolution_ids@) =~= ids_of_resolutions(graph@).subrange(0, i + 1));
            i = i + 1;
        }
        assert(ids_of_resolutions(graph@).subrange(0, graph.resolutions@.len() as int) =~= ids_of_resolutions(graph@));
        let mut rule_ids: Vec<String> = Vec::new();
        let mut i: usize = 0;
        while i < graph.rules.len()
            invariant
                0 <= i <= graph.rules@.len(),
                ids_view(rule_ids@) == ids_of_rules(graph@).subrange(0, i as int),
            decreases graph.rules@.len() - i,
        {
            let ghost prev = rule_ids@;
            rule_ids.push(graph.rules[i].id.clone());
            assert(ids_of_rules(graph@)[i as int] == graph.rules@[i as int].id@);
            assert(ids_view(rule_ids@) =~= ids_view(prev).push(graph.rules@[i as int].id@));
            assert(ids_view(rule_ids@) =~= ids_of_rules(graph@).subrange(0, i + 1));
            i = i + 1;
        }
        assert(ids_of_rules(graph@).subrange(0, graph.rules@.len() as int) =~= ids_of_rules(graph@));
        let mut topic_ids: Vec<String> = Vec::new();
        let mut i: usize = 0;
        while i < graph.topics.len()
            invariant
                0 <= i <= graph.topics@.len(),
                ids_view(topic_ids@) == ids_of_topics(graph@).subrange(0, i as int),
            decreases graph.topics@.len() - i,
        {
            let ghost prev = topic_ids@;
            topic_ids.push(graph.topics[i].id.clone());
            assert(ids_of_topics(graph@)[i as int] == graph.topics@[i as int].id@);
            assert(ids_view(topic_ids@) =~= ids_view(prev).push(graph.topics@[i as int].id@));
            assert(ids_view(topic_ids@) =~= ids_of_topics(graph@).subrange(0, i + 1));
            i = i + 1;
        }
        assert(ids_of_topics(graph@).subrange(0, graph.topics@.len() as int) =~= ids_of_topics(graph@));
        let mut question_ids: Vec<String> = Vec::new();
        let mut i: usize = 0;
        while i < graph.questions.len()
            invariant
                0 <= i <= graph.questions@.len(),
                ids_view(question_ids@) == ids_of_questions(graph@).subrange(0, i as int),
            decreases graph.questions@.len() - i,
        {
            let ghost prev = question_ids@;
            question_ids.push(graph.questions[i].id.clone());
            assert(ids_of_questions(graph@)[i as int] == graph.questions@[i as int].id@);
            assert(ids_view(question_ids@) =~= ids_view(prev).push(graph.questions@[i as int].id@));
            assert(ids_view(question_ids@) =~= ids_of_questions(graph@).subrange(0, i + 1));
            i = i + 1;
        }
        assert(ids_of_questions(graph@).subrange(0, graph.questions@.len() as int) =~= ids_of_questions(graph@));
        GraphQuery {
            graph,
            edges,
            scoped,
            source_ids,
            requirement_ids,
            resolution_ids,
            rule_ids,
            topic_ids,
            question_ids,
        }
    }
}

impl<'a> GraphQuery<'a> {
    /// Whether an edge of the scope of this kind links the two records.
    pub fn edge_exists(&self, edge_type: EdgeType, from_type: NodeType, from_id: &str, to_type: NodeType, to_id: &str) -> (b:
        bool)
        requires
            self.wf(),
        ensures
            b == linked(self.graph@, edge_type, from_type, from_id@, to_type, to_id@),
    {
        has_edge(
            self.edges.as_slice(),
            &EdgePattern {
                edge_type: Some(edge_type),
                from_type: Some(from_type),
                from_id: Some(from_id),
                to_type: Some(to_type),
                to_id: Some(to_id),
            },
        )
    }

    /// Whether the graph holds a source with this id.
    pub fn source_exists(&self, id: &str) -> (b: bool)
        requires
            self.wf(),
        ensures
            b == node_exists(self.graph@, NodeType::Source, id@),
    {
        contains_id(self.source_ids.as_slice(), id)
    }

    /// Whether the graph holds a requirement with this id.
    pub fn requirement_exists(&self, id: &str) -> (b: bool)
        requires
            self.wf(),
        ensures
            b == node_exists(self.graph@, NodeType::Requirement, id@),
    {
        contains_id(self.requirement_ids.as_slice(), id)
    }

    /// Whether the graph holds a resolution with this id.
    pub fn resolution_exists(&self, id: &str) -> (b: bool)
        requires
            self.wf(),
        ensures
            b == node_exists(self.graph@, NodeType::Resolution, id@),
    {
        contains_id(self.resolution_ids.as_slice(), id)
    }

    /// Whether the graph holds a topic with this id.
    pub fn topic_exists(&self, id: &str) -> (b: bool)
        requires
            self.wf(),
        ensures
            b == node_exists(self.graph@, NodeType::Topic, id@),
    {
        contains_id(self.topic_ids.as_slice(), id)
    }

    /// Whether the graph holds a record of this kind and id.
    pub fn node_exists(&self, node_type: NodeType, id: &str) -> (b: bool)
        requires
            self.wf(),
        ensures
            b == node_exists(self.graph@, node_type, id@),
    {
        match node_type {
            NodeType::Source => self.source_exists(id),
            NodeType::Requirement => self.requirement_exists(id),
            NodeType::Resolution => self.resolution_exists(id),
            NodeType::Rule => contains_id(self.rule_ids.as_slice(), id),
            NodeType::Topic => self.topic_exists(id),
            NodeType::Question => contains_id(self.question_ids.as_slice(), id),
        }
    }

    /// Whether an edge of the scope of this kind runs from one of `ids` to
    /// the given record.
    fn links_from_any(&self, ids: &Vec<String>, edge_type: EdgeType, from_type: NodeType, to_type: NodeType, to_id: &str) -> (b:
        bool)
        requires
            self.wf(),
        ensures
            b == links_from_any(self.graph@, ids_view(ids@), edge_type, from_type, to_type, to_id@),
    {
        let ghost iv = ids_view(ids@);
        let mut i: usize = 0;
        while i < ids.len()
            invariant
                self.wf(),
                0 <= i <= ids@.len(),
                iv == ids_view(ids@),
                forall|j: int| 0 <= j < i ==> !linked(self.graph@, edge_type, from_type, #[trigger] iv[j], to_type, to_id@),
            decreases ids@.len() - i,
        {
            assert(iv[i as int] == ids@[i as int]@);
            if self.edge_exists(edge_type, from_type, ids[i].as_str(), to_type, to_id) {
                return true;
            }
            i = i + 1;
        }
        false
    }

    /// Whether an edge of the scope of this kind runs from the given record
    /// to one of `ids`.
    fn links_to_any(&self, edge_type: EdgeType, from_type: NodeType, from_id: &str, ids: &Vec<String>, to_type: NodeType) -> (b:
        bool)
        requires
            self.wf(),
        ensures
            b == links_to_any(self.graph@, edge_type, from_type, from_id@, ids_view(ids@), to_type),
    {
        let ghost iv = ids_view(ids@);
        let mut i: usize = 0;
        while i < ids.len()
            invariant
                self.wf(),
                0 <= i <= ids@.len(),
                iv == ids_view(ids@),
                forall|j: int| 0 <= j < i ==> !linked(self.graph@, edge_type, from_type, from_id@, to_type, #[trigger] iv[j]),
            decreases ids@.len() - i,
        {
            assert(iv[i as int] == ids@[i as int]@);
            if self.edge_exists(edge_type, from_type, from_id, to_type, ids[i].as_str()) {
                return true;
            }
            i = i + 1;
        }
        false
    }

    /// The resolutions, in order, that resolve the requirement.
    pub fn resolving_resolutions(&self, requirement_id: &str) -> (r: Vec<String>)
        requires
            self.wf(),
        ensures
            ids_view(r@) == resolving(self.graph@, requirement_id@),
    {
        rules_resolving(self.resolution_ids.as_slice(), self.edges.as_slice(), requirement_id)
    }

    /// Whether the resolution resolves some requirement of the graph.
    pub fn resolution_resolves_any_requirement(&self, resolution_id: &str) -> (b: bool)
        requires
            self.wf(),
        ensures
            b == resolves_any(self.graph@, resolution_id@),
    {
        self.links_to_any(EdgeType::Resolves, NodeType::Resolution, resolution_id, &self.requirement_ids, NodeType::Requirement)
    }

    /// Whether some requirement, and whether some resolution, of the graph
    /// produces the rule.
    pub fn rule_producers(&self, rule_id: &str) -> (r: (bool, bool))
        requires
            self.wf(),
        ensures
            r.0 == requirement_produces(self.graph@, rule_id@),
            r.1 == resolution_produces(self.graph@, rule_id@),
    {
        (
            self.links_from_any(&self.requirement_ids, EdgeType::Produces, NodeType::Requirement, NodeType::Rule, rule_id),
            self.links_from_any(&self.resolution_ids, EdgeType::Produces, NodeType::Resolution, NodeType::Rule, rule_id),
        )
    }

    /// Whether a requirement or a resolution that the graph holds produces
    /// the rule.
    pub fn rule_has_existing_producer(&self, rule_id: &str) -> (b: bool)
        requires
            self.wf(),
        ensures
            b == (requirement_produces(self.graph@, rule_id@) || resolution_produces(self.graph@, rule_id@)),
    {
        let (by_requirement, by_resolution) = self.rule_producers(rule_id);
        by_requirement || by_resolution
    }

    /// The rules downstream of the requirement.
    pub fn produced_rules_for_requirement(&self, requirement_id: &str) -> (r: Vec<RuleRecord>)
        requires
            self.wf(),
        ensures
            rules_view(r@) == produced_for_requirement(
                self.graph@.rules,
                edge_views(self.graph@),
                requirement_id@,
                resolving(self.graph@, requirement_id@),
            ),
    {
        DownstreamRuleQuery::new(self.edges.as_slice(), self.resolution_ids.as_slice(), self.graph.rules.as_slice())
            .for_requirement(requirement_id)
    }

    /// The rules the resolution produces.
    pub fn produced_rules_for_resolution(&self, resolution_id: &str) -> (r: Vec<RuleRecord>)
        requires
            self.wf(),
        ensures
            rules_view(r@) == produced_by_resolution(self.graph@.rules, edge_views(self.graph@), resolution_id@),
    {
        DownstreamRuleQuery::new(self.edges.as_slice(), self.resolution_ids.as_slice(), self.graph.rules.as_slice())
            .for_resolution(resolution_id)
    }

    /// Whether the requirement has a source ref or a `references` edge from
    /// an existing source.
    pub fn requirement_has_valid_source(&self, requirement: &RequirementEntry) -> (b: bool)
        requires
            self.wf(),
        ensures
            b == has_valid_source(self.graph@, requirement@),
    {
        let ghost g = self.graph@;
        let ghost refs = requirement@.source_refs;
        let mut k: usize = 0;
        while k < requirement.source_refs.len()
            invariant
                self.wf(),
                g == self.graph@,
                refs == requirement@.source_refs,
                0 <= k <= requirement.source_refs@.len(),
                forall|j: int| 0 <= j < k ==> !ids_of_sources(g).contains(#[trigger] refs[j]),
            decreases requirement.source_refs@.len() - k,
        {
            assert(refs[k as int] == requirement.source_refs@[k as int]@);
            if contains_id(self.source_ids.as_slice(), requirement.source_refs[k].as_str()) {
                return true;
            }
            k = k + 1;
        }
        let ghost ev = edge_views(g);
        let mut i: usize = 0;
        while i < self.edges.len()
            invariant
                self.wf(),
                g == self.graph@,
                ev == edge_views(g),
                0 <= i <= self.edges@.len(),
                forall|j: int| 0 <= j < i ==> !valid_reference(g, #[trigger] ev[j], requirement@.id),
            decreases self.edges@.len() - i,
        {
            let e = &self.edges[i];
            assert(ev[i as int] == e@);
            if e.edge_type == EdgeType::References && e.from_type == NodeType::Source && contains_id(
                self.source_ids.as_slice(),
                e.from_id.as_str(),
            ) && e.to_type == NodeType::Requirement && str_equal(e.to_id.as_str(), requirement.id.as_str()) {
                return true;
            }
            i = i + 1;
        }
        false
    }

    /// Whether some requirement names the source in a source ref, or the
    /// source references some requirement by an edge.
    pub fn source_is_referenced(&self, source_id: &str) -> (b: bool)
        requires
            self.wf(),
        ensures
            b == source_referenced(self.graph@, source_id@),
    {
        let ghost g = self.graph@;
        let mut k: usize = 0;
        while k < self.graph.requirements.len()
            invariant
                self.wf(),
                g == self.graph@,
                0 <= k <= self.graph.requirements@.len(),
                forall|j: int| 0 <= j < k ==> !(#[trigger] g.requirements[j]).source_refs.contains(source_id@),
            decreases self.graph.requirements@.len() - k,
        {
            let r = &self.graph.requirements[k];
            assert(g.requirements[k as int] == r@);
            assert(ids_view(r.source_refs@) == r@.source_refs);
            if contains_id(r.source_refs.as_slice(), source_id) {
                return true;
            }
            k = k + 1;
        }
        self.links_to_any(EdgeType::References, NodeType::Source, source_id, &self.requirement_ids, NodeType::Requirement)
    }
}

/// The graph's edges of its own scope, as plain edges and with their ids.
fn scope_edges(graph: &GapGraph) -> (r: (Vec<Edge>, Vec<ScopedEdge>))
    ensures
        r.1@.map_values(|e: ScopedEdge| e@) == scoped_edges(graph@),
        edges_view(r.0@) == edge_views(graph@),
{
    let ghost all = graph@.edges;
    let mut edges: Vec<Edge> = Vec::new();
    let mut scoped: Vec<ScopedEdge> = Vec::new();
    let mut i: usize = 0;
    while i < graph.edges.len()
        invariant
            0 <= i <= graph.edges@.len(),
            all == graph@.edges,
            scoped@.map_values(|e: ScopedEdge| e@) == in_scope(all.subrange(0, i as int), graph@.scope),
            edges_view(edges@) == in_scope(all.subrange(0, i as int), graph@.scope).map_values(
                |e: ScopedEdgeView| e.edge,
            ),
        decreases graph.edges@.len() - i,
    {
        let e = &graph.edges[i];
        proof {
            let s = all.subrange(0, i + 1);
            assert(s.drop_last() =~= all.subrange(0, i as int));
            assert(s.last() == e@);
        }
        let ghost prev_s = scoped@;
        let ghost prev_e = edges@;
        if str_equal(e.scope_id.as_str(), graph.scope.as_str()) {
            scoped.push(ScopedEdge { id: e.id.clone(), scope_id: e.scope_id.clone(), edge: copy_edge(&e.edge) });
            edges.push(copy_edge(&e.edge));
            assert(scoped@.map_values(|x: ScopedEdge| x@) =~= prev_s.map_values(|x: ScopedEdge| x@).push(e@));
            assert(edges_view(edges@) =~= edges_view(prev_e).push(e.edge@));
        }
        assert(scoped@.map_values(|x: ScopedEdge| x@) =~= in_scope(all.subrange(0, i + 1), graph@.scope));
        assert(edges_view(edges@) =~= in_scope(all.subrange(0, i + 1), graph@.scope).map_values(
            |x: ScopedEdgeView| x.edge,
        ));
        i = i + 1;
    }
    assert(all.subrange(0, graph.edges@.len() as int) =~= all);
    (edges, scoped)
}

} // verus!
