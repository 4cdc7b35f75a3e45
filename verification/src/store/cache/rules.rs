//! Rules produced downstream of requirements and resolutions, and the policy
//! that counts them.
use vstd::prelude::*;
use super::graph::{
    any_edge, contains_id, edges_view, has_edge, ids_view, Edge, EdgePattern, EdgeType, EdgeView,
    NodeType, PatternView,
};
use crate::text::str_equal;

verus! {

/// A rule as the downstream queries read it.
#[derive(Clone, Debug, PartialEq, Eq)]
pub struct RuleRecord {
    pub id: String,
    pub severity: String,
}

pub struct RuleView {
    pub id: Seq<char>,
    pub severity: Seq<char>,
}

impl View for RuleRecord {
    type V = RuleView;

    open spec fn view(&self) -> RuleView {
        RuleView { id: self.id@, severity: self.severity@ }
    }
}

pub open spec fn rules_view(v: Seq<RuleRecord>) -> Seq<RuleView> {
    v.map_values(|r: RuleRecord| r@)
}

/// An edge of one kind between two given records.
pub open spec fn edge_between(
    edge_type: EdgeType,
    from_type: NodeType,
    from_id: Seq<char>,
    to_type: NodeType,
    to_id: Seq<char>,
) -> PatternView {
    PatternView {
        edge_type: Some(edge_type),
        from_type: Some(from_type),
        from_id: Some(from_id),
        to_type: Some(to_type),
        to_id: Some(to_id),
    }
}

/// The rules, in order, that a resolution produces.
pub open spec fn produced_by_resolution(rules: Seq<RuleView>, edges: Seq<EdgeView>, resolution_id: Seq<char>) -> Seq<RuleView>
    decreases rules.len(),
{
    if rules.len() == 0 {
        seq![]
    } else {
        let r = rules.last();
        produced_by_resolution(rules.drop_last(), edges, resolution_id) + if any_edge(
            edges,
            edge_between(EdgeType::Produces, NodeType::Resolution, resolution_id, NodeType::Rule, r.id),
        ) {
            seq![r]
        } else {
            seq![]
        }
    }
}

/// The rules downstream of a resolution.
pub fn rules_for_resolution(rules: &[RuleRecord], edges: &[Edge], resolution_id: &str) -> (r: Vec<RuleRecord>)
    ensures
        rules_view(r@) == produced_by_resolution(rules_view(rules@), edges_view(edges@), resolution_id@),
{
    let ghost ev = edges_view(edges@);
    let ghost rv = rules_view(rules@);
    let mut r: Vec<RuleRecord> = Vec::new();
    let mut i: usize = 0;
    while i < rules.len()
        invariant
            0 <= i <= rules@.len(),
            ev == edges_view(edges@),
            rv == rules_view(rules@),
            rules_view(r@) == produced_by_resolution(rv.subrange(0, i as int), ev, resolution_id@),
        decreases rules@.len() - i,
    {
        let rule = &rules[i];
        proof {
            let s = rv.subrange(0, i + 1);
            assert(s.drop_last() =~= rv.subrange(0, i as int));
            assert(s.last() == rule@);
        }
        if has_edge(edges, &EdgePattern {
            edge_type: Some(EdgeType::Produces),
            from_type: Some(NodeType::Resolution),
            from_id: Some(resolution_id),
            to_type: Some(NodeType::Rule),
            to_id: Some(rule.id.as_str()),
        }) {
            let copy = RuleRecord { id: rule.id.clone(), severity: rule.severity.clone() };
            let ghost prev = r@;
            r.push(copy);
            assert(rules_view(r@) =~= rules_view(prev).push(rule@));
        }
        assert(rules_view(r@) =~= produced_by_resolution(rv.subrange(0, i + 1), ev, resolution_id@));
        i = i + 1;
    }
    assert(rv.subrange(0, rules@.len() as int) =~= rv);
    r
}

/// The resolutions among `resolution_ids`, in order, that a `resolves` edge
/// records as resolving the requirement.
pub open spec fn resolving_ids(resolution_ids: Seq<Seq<char>>, edges: Seq<EdgeView>, requirement_id: Seq<char>) -> Seq<
    Seq<char>,
>
    decreases resolution_ids.len(),
{
    if resolution_ids.len() == 0 {
        seq![]
    } else {
        let id = resolution_ids.last();
        resolving_ids(resolution_ids.drop_last(), edges, requirement_id) + if any_edge(
            edges,
            edge_between(EdgeType::Resolves, NodeType::Resolution, id, NodeType::Requirement, requirement_id),
        ) {
            seq![id]
        } else {
            seq![]
        }
    }
}

/// A `produces` edge into the rule, from the requirement itself or from one
/// of the resolutions that resolve it.
pub open spec fn produced_from(e: EdgeView, rule_id: Seq<char>, requirement_id: Seq<char>, resolving: Seq<Seq<char>>) -> bool {
    &&& e.edge_type == EdgeType::Produces
    &&& e.to_type == NodeType::Rule
    &&& e.to_id == rule_id
    &&& ((e.from_type == NodeType::Requirement && e.from_id == requirement_id) || (e.from_type == NodeType::Resolution
        && resolving.contains(e.from_id)))
}

/// Some edge produces the rule for the requirement.
pub open spec fn produced_for(edges: Seq<EdgeView>, rule_id: Seq<char>, requirement_id: Seq<char>, resolving: Seq<Seq<char>>) -> bool {
    exists|i: int| 0 <= i < edges.len() && produced_from(#[trigger] edges[i], rule_id, requirement_id, resolving)
}

/// The rules, in order, produced downstream of a requirement.
pub open spec fn produced_for_requirement(
    rules: Seq<RuleView>,
    edges: Seq<EdgeView>,
    requirement_id: Seq<char>,
    resolving: Seq<Seq<char>>,
) -> Seq<RuleView>
    decreases rules.len(),
{
    if rules.len() == 0 {
        seq![]
    } else {
        let r = rules.last();
        produced_for_requirement(rules.drop_last(), edges, requirement_id, resolving) + if produced_for(
            edges,
            r.id,
            requirement_id,
            resolving,
        ) {
            seq![r]
        } else {
            seq![]
        }
    }
}

/// The resolutions, in order, recorded as resolving the requirement.
pub fn resolving_resolutions(resolution_ids: &[String], edges: &[Edge], requirement_id: &str) -> (r: Vec<String>)
    ensures
        ids_view(r@) == resolving_ids(ids_view(resolution_ids@), edges_view(edges@), requirement_id@),
{
    let ghost ev = edges_view(edges@);
    let ghost iv = ids_view(resolution_ids@);
    let mut r: Vec<String> = Vec::new();
    let mut i: usize = 0;
    while i < resolution_ids.len()
        invariant
            0 <= i <= resolution_ids@.len(),
            ev == edges_view(edges@),
            iv == ids_view(resolution_ids@),
            ids_view(r@) == resolving_ids(iv.subrange(0, i as int), ev, requirement_id@),
        decreases resolution_ids@.len() - i,
    {
        proof {
            let s = iv.subrange(0, i + 1);
            assert(s.drop_last() =~= iv.subrange(0, i as int));
            assert(s.last() == resolution_ids@[i as int]@);
        }
        if has_edge(edges, &EdgePattern {
            edge_type: Some(EdgeType::Resolves),
            from_type: Some(NodeType::Resolution),
            from_id: Some(resolution_ids[i].as_str()),
            to_type: Some(NodeType::Requirement),
            to_id: Some(requirement_id),
        }) {
            let ghost prev = ids_view(r@);
            r.push(resolution_ids[i].clone());
            assert(ids_view(r@) =~= prev.push(resolution_ids@[i as int]@));
        }
        assert(ids_view(r@) =~= resolving_ids(iv.subrange(0, i + 1), ev, requirement_id@));
        i = i + 1;
    }
    assert(iv.subrange(0, resolution_ids@.len() as int) =~= iv);
    r
}

fn is_produced_by(edges: &[Edge], rule_id: &str, requirement_id: &str, resolving: &Vec<String>) -> (b: bool)
    ensures
        b == produced_for(edges_view(edges@), rule_id@, requirement_id@, ids_view(resolving@)),
{
    let ghost ev = edges_view(edges@);
    let mut i: usize = 0;
    while i < edges.len()
        invariant
            0 <= i <= edges@.len(),
            ev == edges_view(edges@),
            forall|j: int| 0 <= j < i ==> !produced_from(#[trigger] ev[j], rule_id@, requirement_id@, ids_view(resolving@)),
        decreases edges@.len() - i,
    {
        let e = &edges[i];
        assert(ev[i as int] == e@);
        if e.edge_type == EdgeType::Produces && e.to_type == NodeType::Rule && str_equal(e.to_id.as_str(), rule_id) && (
        (e.from_type == NodeType::Requirement && str_equal(e.from_id.as_str(), requirement_id)) || (e.from_type
            == NodeType::Resolution && contains_id(resolving.as_slice(), e.from_id.as_str()))) {
            return true;
        }
        i = i + 1;
    }
    false
}

/// The rules downstream of a requirement: those it produces itself and those
/// produced by a resolution that resolves it.
pub fn rules_for_requirement(
    rules: &[RuleRecord],
    resolution_ids: &[String],
    edges: &[Edge],
    requirement_id: &str,
) -> (r: Vec<RuleRecord>)
    ensures
        rules_view(r@) == produced_for_requirement(
            rules_view(rules@),
            edges_view(edges@),
            requirement_id@,
            resolving_ids(ids_view(resolution_ids@), edges_view(edges@), requirement_id@),
        ),
{
    let resolving = resolving_resolutions(resolution_ids, edges, requirement_id);
    let ghost rs = ids_view(resolving@);
    let ghost ev = edges_view(edges@);
    let ghost rv = rules_view(rules@);
    let mut r: Vec<RuleRecord> = Vec::new();
    let mut i: usize = 0;
    while i < rules.len()
        invariant
            0 <= i <= rules@.len(),
            ev == edges_view(edges@),
            rv == rules_view(rules@),
            rs == ids_view(resolving@),
            rules_view(r@) == produced_for_requirement(rv.subrange(0, i as int), ev, requirement_id@, rs),
        decreases rules@.len() - i,
    {
        let rule = &rules[i];
        proof {
            let s = rv.subrange(0, i + 1);
            assert(s.drop_last() =~= rv.subrange(0, i as int));
            assert(s.last() == rule@);
        }
        if is_produced_by(edges, rule.id.as_str(), requirement_id, &resolving) {
            let copy = RuleRecord { id: rule.id.clone(), severity: rule.severity.clone() };
            let ghost prev = r@;
            r.push(copy);
            assert(rules_view(r@) =~= rules_view(prev).push(rule@));
        }
        assert(rules_view(r@) =~= produced_for_requirement(rv.subrange(0, i + 1), ev, requirement_id@, rs));
        i = i + 1;
    }
    assert(rv.subrange(0, rules@.len() as int) =~= rv);
    r
}

/// The graph query for rules produced downstream of requirements and
/// resolutions, over one snapshot of edges, resolutions (by id) and rules.
pub struct DownstreamRuleQuery<'a> {
    pub edges: &'a [Edge],
    pub resolution_ids: &'a [String],
    pub rules: &'a [RuleRecord],
}

impl<'a> DownstreamRuleQuery<'a> {
    pub fn new(edges: &'a [Edge], resolution_ids: &'a [String], rules: &'a [RuleRecord]) -> (q: Self)
        ensures
            q.edges@ == edges@,
            q.resolution_ids@ == resolution_ids@,
            q.rules@ == rules@,
    {
        DownstreamRuleQuery { edges, resolution_ids, rules }
    }

    /// The rules, in order, that the requirement produces itself or that a
    /// resolution resolving it produces.
    pub fn for_requirement(&self, requirement_id: &str) -> (r: Vec<RuleRecord>)
        ensures
            rules_view(r@) == produced_for_requirement(
                rules_view(self.rules@),
                edges_view(self.edges@),
                requirement_id@,
                resolving_ids(ids_view(self.resolution_ids@), edges_view(self.edges@), requirement_id@),
            ),
    {
        rules_for_requirement(self.rules, self.resolution_ids, self.edges, requirement_id)
    }

    /// The rules, in order, that the resolution produces.
    pub fn for_resolution(&self, resolution_id: &str) -> (r: Vec<RuleRecord>)
        ensures
            rules_view(r@) == produced_by_resolution(rules_view(self.rules@), edges_view(self.edges@), resolution_id@),
    {
        rules_for_resolution(self.rules, self.edges, resolution_id)
    }
}

/// How many downstream rules, of which severities, a query needs.
#[derive(Clone, Debug, PartialEq, Eq)]
pub struct RulePolicy {
    pub severities: Vec<String>,
    pub minimum: u32,
}

/// The rule counts under the policy: every rule when no severity is named,
/// else the rules of a named severity.
pub open spec fn selected(severities: Seq<Seq<char>>, rules: Seq<RuleView>) -> nat
    decreases rules.len(),
{
    if rules.len() == 0 {
        0
    } else {
        selected(severities, rules.drop_last()) + if severities.len() == 0 || severities.contains(
            rules.last().severity,
        ) {
            1nat
        } else {
            0nat
        }
    }
}

/// At least the minimum number of rules is selected, and, when severities
/// are named, at least one.
pub open spec fn policy_matches(severities: Seq<Seq<char>>, minimum: nat, rules: Seq<RuleView>) -> bool {
    selected(severities, rules) >= minimum && (severities.len() == 0 || selected(severities, rules) > 0)
}

impl RulePolicy {
    /// Whether a set of downstream rules satisfies the policy.
    pub fn matches(&self, rules: &[RuleRecord]) -> (r: bool)
        ensures
            r == policy_matches(ids_view(self.severities@), self.minimum as nat, rules_view(rules@)),
    {
        let ghost rv = rules_view(rules@);
        let mut count: usize = 0;
        let mut i: usize = 0;
        while i < rules.len()
            invariant
                0 <= i <= rules@.len(),
                rv == rules_view(rules@),
                count == selected(ids_view(self.severities@), rv.subrange(0, i as int)),
                count <= i,
            decreases rules@.len() - i,
        {
            proof {
                let s = rv.subrange(0, i + 1);
                assert(s.drop_last() =~= rv.subrange(0, i as int));
                assert(s.last() == rules@[i as int]@);
            }
            if self.severities.len() == 0 || contains_id(self.severities.as_slice(), rules[i].severity.as_str()) {
                count = count + 1;
            }
            i = i + 1;
        }
        assert(rv.subrange(0, rules@.len() as int) =~= rv);
        count >= self.minimum as usize && (self.severities.len() == 0 || count > 0)
    }
}

} // verus!
