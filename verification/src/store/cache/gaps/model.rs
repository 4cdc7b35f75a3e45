//! The records the gap rule reads, and the gaps it reports.
use vstd::prelude::*;
use crate::store::cache::graph::{node_type_word, node_type_word_of, Edge, EdgeView, NodeType};
use crate::store::cache::rules::{rules_view, RuleRecord, RuleView};
use crate::store::cache::GapKind;
use crate::text::push_text;

verus! {

/// The view of an optional string.
pub open spec fn opt_view(o: Option<String>) -> Option<Seq<char>> {
    match o {
        Some(s) => Some(s@),
        None => None,
    }
}

/// A source: its id and the source that supersedes it, if any.
#[derive(Clone, Debug, PartialEq, Eq)]
pub struct SourceEntry {
    pub id: String,
    pub superseded_by: Option<String>,
}

pub struct SourceEntryView {
    pub id: Seq<char>,
    pub superseded_by: Option<Seq<char>>,
}

impl View for SourceEntry {
    type V = SourceEntryView;

    open spec fn view(&self) -> SourceEntryView {
        SourceEntryView { id: self.id@, superseded_by: opt_view(self.superseded_by) }
    }
}

/// A requirement: whether its status is `resolved`, its domain and the
/// sources its source refs name.
#[derive(Clone, Debug, PartialEq, Eq)]
pub struct RequirementEntry {
    pub id: String,
    pub resolved: bool,
    pub domain_id: Option<String>,
    pub source_refs: Vec<String>,
}

pub struct RequirementEntryView {
    pub id: Seq<char>,
    pub resolved: bool,
    pub domain_id: Option<Seq<char>>,
    pub source_refs: Seq<Seq<char>>,
}

impl View for RequirementEntry {
    type V = RequirementEntryView;

    open spec fn view(&self) -> RequirementEntryView {
        RequirementEntryView {
            id: self.id@,
            resolved: self.resolved,
            domain_id: opt_view(self.domain_id),
            source_refs: self.source_refs@.map_values(|s: String| s@),
        }
    }
}

/// A resolution: whether its status is `approved`, and the resolution that
/// supersedes it, if any.
#[derive(Clone, Debug, PartialEq, Eq)]
pub struct ResolutionEntry {
    pub id: String,
    pub approved: bool,
    pub superseded_by: Option<String>,
}

pub struct ResolutionEntryView {
    pub id: Seq<char>,
    pub approved: bool,
    pub superseded_by: Option<Seq<char>>,
}

impl View for ResolutionEntry {
    type V = ResolutionEntryView;

    open spec fn view(&self) -> ResolutionEntryView {
        ResolutionEntryView { id: self.id@, approved: self.approved, superseded_by: opt_view(self.superseded_by) }
    }
}

/// A topic: the requirement it hangs off and whether it is still open.
#[derive(Clone, Debug, PartialEq, Eq)]
pub struct TopicEntry {
    pub id: String,
    pub requirement_id: String,
    pub open: bool,
}

pub struct TopicEntryView {
    pub id: Seq<char>,
    pub requirement_id: Seq<char>,
    pub open: bool,
}

impl View for TopicEntry {
    type V = TopicEntryView;

    open spec fn view(&self) -> TopicEntryView {
        TopicEntryView { id: self.id@, requirement_id: self.requirement_id@, open: self.open }
    }
}

/// Where a question stands.
#[derive(Clone, Copy, Debug, PartialEq, Eq, Structural)]
pub enum QuestionStatus {
    Open,
    BlockedOnHuman,
    Answered,
}

/// A question: its topic, its requirement, its status and the resolution
/// that answered it, if any.
#[derive(Clone, Debug, PartialEq, Eq)]
pub struct QuestionEntry {
    pub id: String,
    pub topic_id: String,
    pub requirement_id: String,
    pub status: QuestionStatus,
    pub resolution_id: Option<String>,
}

pub struct QuestionEntryView {
    pub id: Seq<char>,
    pub topic_id: Seq<char>,
    pub requirement_id: Seq<char>,
    pub status: QuestionStatus,
    pub resolution_id: Option<Seq<char>>,
}

impl View for QuestionEntry {
    type V = QuestionEntryView;

    open spec fn view(&self) -> QuestionEntryView {
        QuestionEntryView {
            id: self.id@,
            topic_id: self.topic_id@,
            requirement_id: self.requirement_id@,
            status: self.status,
            resolution_id: opt_view(self.resolution_id),
        }
    }
}

/// A discussion thread and the record it hangs off.
#[derive(Clone, Debug, PartialEq, Eq)]
pub struct ThreadEntry {
    pub id: String,
    pub parent_type: NodeType,
    pub parent_id: String,
}

pub struct ThreadEntryView {
    pub id: Seq<char>,
    pub parent_type: NodeType,
    pub parent_id: Seq<char>,
}

impl View for ThreadEntry {
    type V = ThreadEntryView;

    open spec fn view(&self) -> ThreadEntryView {
        ThreadEntryView { id: self.id@, parent_type: self.parent_type, parent_id: self.parent_id@ }
    }
}

/// An edge with its id and the scope it was recorded in.
#[derive(Clone, Debug, PartialEq, Eq)]
pub struct ScopedEdge {
    pub id: String,
    pub scope_id: String,
    pub edge: Edge,
}

pub struct ScopedEdgeView {
    pub id: Seq<char>,
    pub scope_id: Seq<char>,
    pub edge: EdgeView,
}

impl View for ScopedEdge {
    type V = ScopedEdgeView;

    open spec fn view(&self) -> ScopedEdgeView {
        ScopedEdgeView { id: self.id@, scope_id: self.scope_id@, edge: self.edge@ }
    }
}

/// The records of one scope that the gap rule reads. `edges` may hold edges
/// of other scopes; only those of `scope` count.
#[derive(Clone, Debug, PartialEq, Eq)]
pub struct GapGraph {
    pub scope: String,
    pub sources: Vec<SourceEntry>,
    pub requirements: Vec<RequirementEntry>,
    pub resolutions: Vec<ResolutionEntry>,
    pub rules: Vec<RuleRecord>,
    pub topics: Vec<TopicEntry>,
    pub questions: Vec<QuestionEntry>,
    pub edges: Vec<ScopedEdge>,
    pub threads: Vec<ThreadEntry>,
}

pub struct GapGraphView {
    pub scope: Seq<char>,
    pub sources: Seq<SourceEntryView>,
    pub requirements: Seq<RequirementEntryView>,
    pub resolutions: Seq<ResolutionEntryView>,
    pub rules: Seq<RuleView>,
    pub topics: Seq<TopicEntryView>,
    pub questions: Seq<QuestionEntryView>,
    pub edges: Seq<ScopedEdgeView>,
    pub threads: Seq<ThreadEntryView>,
}

impl View for GapGraph {
    type V = GapGraphView;

    open spec fn view(&self) -> GapGraphView {
        GapGraphView {
            scope: self.scope@,
            sources: self.sources@.map_values(|x: SourceEntry| x@),
            requirements: self.requirements@.map_values(|x: RequirementEntry| x@),
            resolutions: self.resolutions@.map_values(|x: ResolutionEntry| x@),
            rules: rules_view(self.rules@),
            topics: self.topics@.map_values(|x: TopicEntry| x@),
            questions: self.questions@.map_values(|x: QuestionEntry| x@),
            edges: self.edges@.map_values(|x: ScopedEdge| x@),
            threads: self.threads@.map_values(|x: ThreadEntry| x@),
        }
    }
}

/// One unfinished spot in the graph.
#[derive(Clone, Debug, PartialEq, Eq)]
pub struct GapItem {
    pub kind: GapKind,
    pub node_type: NodeType,
    pub node_id: String,
    pub related_node_type: Option<NodeType>,
    pub related_node_id: Option<String>,
    pub requirement_id: Option<String>,
    pub reason: String,
}

pub struct GapItemView {
    pub kind: GapKind,
    pub node_type: NodeType,
    pub node_id: Seq<char>,
    pub related_node_type: Option<NodeType>,
    pub related_node_id: Option<Seq<char>>,
    pub requirement_id: Option<Seq<char>>,
    pub reason: Seq<char>,
}

impl View for GapItem {
    type V = GapItemView;

    open spec fn view(&self) -> GapItemView {
        GapItemView {
            kind: self.kind,
            node_type: self.node_type,
            node_id: self.node_id@,
            related_node_type: self.related_node_type,
            related_node_id: opt_view(self.related_node_id),
            requirement_id: opt_view(self.requirement_id),
            reason: self.reason@,
        }
    }
}

pub open spec fn gaps_view(v: Seq<GapItem>) -> Seq<GapItemView> {
    v.map_values(|g: GapItem| g@)
}

/// A gap about a record; a requirement's gap names the requirement.
pub open spec fn gap(kind: GapKind, node_type: NodeType, node_id: Seq<char>, reason: Seq<char>) -> GapItemView {
    GapItemView {
        kind,
        node_type,
        node_id,
        related_node_type: None,
        related_node_id: None,
        requirement_id: if node_type == NodeType::Requirement {
            Some(node_id)
        } else {
            None
        },
        reason,
    }
}

/// The gap, naming the record it points at.
pub open spec fn related(g: GapItemView, node_type: NodeType, node_id: Seq<char>) -> GapItemView {
    GapItemView { related_node_type: Some(node_type), related_node_id: Some(node_id), ..g }
}

/// The gap, naming the requirement it belongs to.
pub open spec fn for_requirement(g: GapItemView, requirement_id: Seq<char>) -> GapItemView {
    GapItemView { requirement_id: Some(requirement_id), ..g }
}

/// "word id", then " -> word id" of the related record when there is one.
pub open spec fn subject_of(g: GapItemView) -> Seq<char> {
    let own = node_type_word(g.node_type) + " "@ + g.node_id;
    match (g.related_node_type, g.related_node_id) {
        (Some(t), Some(id)) => own + " -> "@ + node_type_word(t) + " "@ + id,
        _ => own,
    }
}

impl GapItem {
    /// A gap about a record; a requirement's gap names the requirement.
    pub fn new(kind: GapKind, node_type: NodeType, node_id: &str, reason: String) -> (g: GapItem)
        ensures
            g@ == gap(kind, node_type, node_id@, reason@),
    {
        GapItem {
            kind,
            node_type,
            node_id: node_id.to_owned(),
            related_node_type: None,
            related_node_id: None,
            requirement_id: if node_type == NodeType::Requirement {
                Some(node_id.to_owned())
            } else {
                None
            },
            reason,
        }
    }

    /// The gap, naming the record it points at.
    pub fn with_related(self, node_type: NodeType, node_id: &str) -> (g: GapItem)
        ensures
            g@ == related(self@, node_type, node_id@),
    {
        GapItem { related_node_type: Some(node_type), related_node_id: Some(node_id.to_owned()), ..self }
    }

    /// The gap, naming the requirement it belongs to.
    pub fn with_requirement(self, requirement_id: &str) -> (g: GapItem)
        ensures
            g@ == for_requirement(self@, requirement_id@),
    {
        GapItem { requirement_id: Some(requirement_id.to_owned()), ..self }
    }

    /// The record the gap is about, and the record it points at if any,
    /// as `requirement req_1 -> source src_1`.
    pub fn subject(&self) -> (s: String)
        ensures
            s@ == subject_of(self@),
    {
        let mut s = String::new();
        push_text(&mut s, node_type_word_of(self.node_type));
        push_text(&mut s, " ");
        push_text(&mut s, self.node_id.as_str());
        match (self.related_node_type, &self.related_node_id) {
            (Some(t), Some(id)) => {
                push_text(&mut s, " -> ");
                push_text(&mut s, node_type_word_of(t));
                push_text(&mut s, " ");
                push_text(&mut s, id.as_str());
            },
            _ => {},
        }
        s
    }
}

} // verus!
