//! The part of a scope's graph records that the queries read: node and edge
//! kinds, edge endpoints and record identifiers.
use vstd::prelude::*;
use crate::text::str_equal;

verus! {

/// The kind of a graph node.
#[derive(Clone, Copy, Debug, PartialEq, Eq, Structural)]
pub enum NodeType {
    Source,
    Requirement,
    Resolution,
    Rule,
    Topic,
    Question,
}

/// The kind of a graph edge; `Other` stands for the kinds no query here
/// singles out.
#[derive(Clone, Copy, Debug, PartialEq, Eq, Structural)]
pub enum EdgeType {
    References,
    Resolves,
    Produces,
    DependsOn,
    RefinesInto,
    Contradicts,
    Supersedes,
    Spawns,
    Other,
}

/// A directed edge between two records.
#[derive(Clone, Debug, PartialEq, Eq)]
pub struct Edge {
    pub edge_type: EdgeType,
    pub from_type: NodeType,
    pub from_id: String,
    pub to_type: NodeType,
    pub to_id: String,
}

pub struct EdgeView {
    pub edge_type: EdgeType,
    pub from_type: NodeType,
    pub from_id: Seq<char>,
    pub to_type: NodeType,
    pub to_id: Seq<char>,
}

impl View for Edge {
    type V = EdgeView;

    open spec fn view(&self) -> EdgeView {
        EdgeView {
            edge_type: self.edge_type,
            from_type: self.from_type,
            from_id: self.from_id@,
            to_type: self.to_type,
            to_id: self.to_id@,
        }
    }
}

pub open spec fn edges_view(edges: Seq<Edge>) -> Seq<EdgeView> {
    edges.map_values(|e: Edge| e@)
}

/// A copy of the edge.
pub fn copy_edge(e: &Edge) -> (c: Edge)
    ensures
        c@ == e@,
{
    Edge {
        edge_type: e.edge_type,
        from_type: e.from_type,
        from_id: e.from_id.clone(),
        to_type: e.to_type,
        to_id: e.to_id.clone(),
    }
}

/// A copy of the edges, in order.
pub fn copy_edges(edges: &[Edge]) -> (c: Vec<Edge>)
    ensures
        edges_view(c@) == edges_view(edges@),
{
    let mut c: Vec<Edge> = Vec::new();
    let mut i: usize = 0;
    while i < edges.len()
        invariant
            0 <= i <= edges@.len(),
            edges_view(c@) == edges_view(edges@).subrange(0, i as int),
        decreases edges@.len() - i,
    {
        let ghost before = edges_view(c@);
        c.push(copy_edge(&edges[i]));
        assert(edges_view(c@) =~= before.push(edges@[i as int]@));
        assert(edges_view(edges@).subrange(0, i + 1) =~= edges_view(edges@).subrange(0, i as int).push(edges@[i as int]@));
        i = i + 1;
    }
    assert(edges_view(edges@).subrange(0, edges@.len() as int) =~= edges_view(edges@));
    c
}

/// The word used for a node kind in messages.
pub open spec fn node_type_word(node_type: NodeType) -> Seq<char> {
    match node_type {
        NodeType::Source => "source"@,
        NodeType::Requirement => "requirement"@,
        NodeType::Resolution => "resolution"@,
        NodeType::Rule => "rule"@,
        NodeType::Topic => "topic"@,
        NodeType::Question => "question"@,
    }
}

/// The word used for a node kind in messages.
pub fn node_type_word_of(node_type: NodeType) -> (s: &'static str)
    ensures
        s@ == node_type_word(node_type),
{
    match node_type {
        NodeType::Source => "source",
        NodeType::Requirement => "requirement",
        NodeType::Resolution => "resolution",
        NodeType::Rule => "rule",
        NodeType::Topic => "topic",
        NodeType::Question => "question",
    }
}

/// A condition on an edge: each part that is given must hold.
pub struct EdgePattern<'a> {
    pub edge_type: Option<EdgeType>,
    pub from_type: Option<NodeType>,
    pub from_id: Option<&'a str>,
    pub to_type: Option<NodeType>,
    pub to_id: Option<&'a str>,
}

pub struct PatternView {
    pub edge_type: Option<EdgeType>,
    pub from_type: Option<NodeType>,
    pub from_id: Option<Seq<char>>,
    pub to_type: Option<NodeType>,
    pub to_id: Option<Seq<char>>,
}

impl<'a> View for EdgePattern<'a> {
    type V = PatternView;

    open spec fn view(&self) -> PatternView {
        PatternView {
            edge_type: self.edge_type,
            from_type: self.from_type,
            from_id: match self.from_id {
                Some(s) => Some(s@),
                None => None,
            },
            to_type: self.to_type,
            to_id: match self.to_id {
                Some(s) => Some(s@),
                None => None,
            },
        }
    }
}

/// The edge meets every given part of the pattern.
pub open spec fn edge_matches(e: EdgeView, p: PatternView) -> bool {
    &&& (p.edge_type matches Some(t) ==> e.edge_type == t)
    &&& (p.from_type matches Some(t) ==> e.from_type == t)
    &&& (p.from_id matches Some(id) ==> e.from_id == id)
    &&& (p.to_type matches Some(t) ==> e.to_type == t)
    &&& (p.to_id matches Some(id) ==> e.to_id == id)
}

/// Some edge meets the pattern.
pub open spec fn any_edge(edges: Seq<EdgeView>, p: PatternView) -> bool {
    exists|i: int| 0 <= i < edges.len() && edge_matches(#[trigger] edges[i], p)
}

/// Whether the edge meets the pattern.
pub fn matches_pattern(e: &Edge, p: &EdgePattern) -> (r: bool)
    ensures
        r == edge_matches(e@, p@),
{
    if let Some(t) = p.edge_type {
        if e.edge_type != t {
            return false;
        }
    }
    if let Some(t) = p.from_type {
        if e.from_type != t {
            return false;
        }
    }
    if let Some(id) = p.from_id {
        if !str_equal(e.from_id.as_str(), id) {
            return false;
        }
    }
    if let Some(t) = p.to_type {
        if e.to_type != t {
            return false;
        }
    }
    if let Some(id) = p.to_id {
        if !str_equal(e.to_id.as_str(), id) {
            return false;
        }
    }
    true
}

/// Whether some edge meets the pattern.
pub fn has_edge(edges: &[Edge], p: &EdgePattern) -> (r: bool)
    ensures
        r == any_edge(edges_view(edges@), p@),
{
    let mut i: usize = 0;
    while i < edges.len()
        invariant
            0 <= i <= edges@.len(),
            forall|j: int| 0 <= j < i ==> !edge_matches(#[trigger] edges_view(edges@)[j], p@),
        decreases edges@.len() - i,
    {
        assert(edges_view(edges@)[i as int] == edges@[i as int]@);
        if matches_pattern(&edges[i], p) {
            return true;
        }
        i = i + 1;
    }
    false
}

/// The strings as plain text values.
pub open spec fn ids_view(v: Seq<String>) -> Seq<Seq<char>> {
    v.map_values(|s: String| s@)
}

/// Whether `id` is among `ids`.
pub fn contains_id(ids: &[String], id: &str) -> (r: bool)
    ensures
        r == ids_view(ids@).contains(id@),
{
    let mut i: usize = 0;
    while i < ids.len()
        invariant
            0 <= i <= ids@.len(),
            forall|j: int| 0 <= j < i ==> ids@[j]@ != id@,
        decreases ids@.len() - i,
    {
        if str_equal(ids[i].as_str(), id) {
            assert(ids_view(ids@)[i as int] == id@);
            return true;
        }
        i = i + 1;
    }
    proof {
        if ids_view(ids@).contains(id@) {
            let j = choose|j: int| 0 <= j < ids_view(ids@).len() && ids_view(ids@)[j] == id@;
            assert(ids@[j]@ == id@);
        }
    }
    false
}

} // verus!
