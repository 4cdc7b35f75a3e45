//! Coverage health of a scope: how many requirements are linked, resolved and
//! turned into rules, and which rules lack a traceable origin.
use vstd::prelude::*;
use vstd::string::StringExecFns;
use super::gaps::compute_gaps;
use super::gaps::gaps_of;
use super::gaps::model::{gaps_view, GapGraph, GapGraphView, RequirementEntryView};
use super::gaps::frontier::rule_gaps_of;
use super::gaps::query::{
    edge_views, ids_of_requirements, ids_of_resolutions, ids_of_rules, links_from_any, linked, node_exists,
    requirement_produces, resolution_produces, GraphQuery,
};
use super::rules::{edge_between, RuleView};
use super::stale::{find_stale, stale_list, ResolutionRecord, StaleResolution};
use super::graph::{
    any_edge, edge_matches, edges_view, has_edge, Edge, EdgePattern, EdgeType, EdgeView, NodeType, PatternView,
    ids_view,
};

verus! {

/// A plain count.
#[derive(Clone, Copy, Debug, PartialEq, Eq, Structural)]
pub struct CountMetric {
    pub total: usize,
}

/// How many rules there are, and how many trace back to a requirement, a
/// resolution and a source.
#[derive(Clone, Copy, Debug, PartialEq, Eq, Structural)]
pub struct RuleHealthMetric {
    pub total: usize,
    pub with_complete_traceability: usize,
}

/// The coverage health of one scope.
#[derive(Clone, Copy, Debug, PartialEq, Eq, Structural)]
pub struct HealthView {
    pub requirements: CountMetric,
    pub source_linked_requirements: usize,
    pub resolved_requirements: usize,
    pub requirements_with_rules: usize,
    pub rules: RuleHealthMetric,
    pub stale: CountMetric,
    pub gaps: CountMetric,
}

/// A rule and the links it lacks: `requirement`, `resolution`, `source`.
#[derive(Clone, Debug, PartialEq, Eq)]
pub struct OrphanRuleItem {
    pub rule_id: String,
    pub missing: Vec<String>,
}

/// A requirement as the health query reads it.
#[derive(Clone, Debug, PartialEq, Eq)]
pub struct RequirementRecord {
    pub id: String,
    pub resolved: bool,
}

pub struct RequirementView {
    pub id: Seq<char>,
    pub resolved: bool,
}

impl View for RequirementRecord {
    type V = RequirementView;

    open spec fn view(&self) -> RequirementView {
        RequirementView { id: self.id@, resolved: self.resolved }
    }
}

pub open spec fn requirements_view(v: Seq<RequirementRecord>) -> Seq<RequirementView> {
    v.map_values(|r: RequirementRecord| r@)
}

pub open spec fn pattern(
    edge_type: EdgeType,
    from_type: Option<NodeType>,
    from_id: Option<Seq<char>>,
    to_type: Option<NodeType>,
    to_id: Option<Seq<char>>,
) -> PatternView {
    PatternView { edge_type: Some(edge_type), from_type, from_id, to_type, to_id }
}

/// A `references` edge points at the requirement.
pub open spec fn source_linked(edges: Seq<EdgeView>, id: Seq<char>) -> bool {
    any_edge(edges, pattern(EdgeType::References, None, None, None, Some(id)))
}

/// The requirement is resolved, or a `resolves` edge points at it.
pub open spec fn resolved(edges: Seq<EdgeView>, r: RequirementView) -> bool {
    r.resolved || any_edge(edges, pattern(EdgeType::Resolves, None, None, None, Some(r.id)))
}

/// A `produces` edge leaves the requirement.
pub open spec fn produces_rules(edges: Seq<EdgeView>, id: Seq<char>) -> bool {
    any_edge(edges, pattern(EdgeType::Produces, Some(NodeType::Requirement), Some(id), None, None))
}

pub open spec fn count_linked(reqs: Seq<RequirementView>, edges: Seq<EdgeView>) -> nat
    decreases reqs.len(),
{
    if reqs.len() == 0 {
        0
    } else {
        count_linked(reqs.drop_last(), edges) + if source_linked(edges, reqs.last().id) { 1nat } else { 0nat }
    }
}

pub open spec fn count_resolved(reqs: Seq<RequirementView>, edges: Seq<EdgeView>) -> nat
    decreases reqs.len(),
{
    if reqs.len() == 0 {
        0
    } else {
        count_resolved(reqs.drop_last(), edges) + if resolved(edges, reqs.last()) { 1nat } else { 0nat }
    }
}

pub open spec fn count_with_rules(reqs: Seq<RequirementView>, edges: Seq<EdgeView>) -> nat
    decreases reqs.len(),
{
    if reqs.len() == 0 {
        0
    } else {
        count_with_rules(reqs.drop_last(), edges) + if produces_rules(edges, reqs.last().id) { 1nat } else { 0nat }
    }
}

/// A source references the requirement.
pub open spec fn sourced(edges: Seq<EdgeView>, requirement_id: Seq<char>) -> bool {
    any_edge(
        edges,
        pattern(EdgeType::References, Some(NodeType::Source), None, Some(NodeType::Requirement), Some(requirement_id)),
    )
}

/// The edge is a `produces` edge from a requirement to the rule.
pub open spec fn produced_by_requirement(e: EdgeView, rule_id: Seq<char>) -> bool {
    e.edge_type == EdgeType::Produces && e.from_type == NodeType::Requirement && e.to_id == rule_id
}

/// Some requirement that produces the rule is referenced by a source.
pub open spec fn source_behind_producer(edges: Seq<EdgeView>, rule_id: Seq<char>) -> bool {
    exists|j: int| 0 <= j < edges.len() && produced_by_requirement(#[trigger] edges[j], rule_id) && sourced(edges, edges[j].from_id)
}

/// The links a rule lacks, in the order requirement, resolution, source.
/// The source has to stand behind a requirement that produces the rule.
pub open spec fn missing_links(edges: Seq<EdgeView>, rule_id: Seq<char>) -> Seq<Seq<char>> {
    let has_requirement = any_edge(
        edges,
        pattern(EdgeType::Produces, Some(NodeType::Requirement), None, None, Some(rule_id)),
    );
    let has_resolution = any_edge(
        edges,
        pattern(EdgeType::Produces, Some(NodeType::Resolution), None, None, Some(rule_id)),
    );
    let has_source = source_behind_producer(edges, rule_id);
    (if has_requirement { seq![] } else { seq!["requirement"@] }) + (if has_resolution {
        seq![]
    } else {
        seq!["resolution"@]
    }) + (if has_source { seq![] } else { seq!["source"@] })
}

pub struct OrphanView {
    pub rule_id: Seq<char>,
    pub missing: Seq<Seq<char>>,
}

impl View for OrphanRuleItem {
    type V = OrphanView;

    open spec fn view(&self) -> OrphanView {
        OrphanView { rule_id: self.rule_id@, missing: ids_view(self.missing@) }
    }
}

/// The rules, in order, that lack some link.
pub open spec fn orphans(rules: Seq<Seq<char>>, edges: Seq<EdgeView>) -> Seq<OrphanView>
    decreases rules.len(),
{
    if rules.len() == 0 {
        seq![]
    } else {
        let id = rules.last();
        orphans(rules.drop_last(), edges) + if missing_links(edges, id).len() > 0 {
            seq![OrphanView { rule_id: id, missing: missing_links(edges, id) }]
        } else {
            seq![]
        }
    }
}

pub proof fn lemma_orphans_len(rules: Seq<Seq<char>>, edges: Seq<EdgeView>)
    ensures
        orphans(rules, edges).len() <= rules.len(),
    decreases rules.len(),
{
    if rules.len() > 0 {
        lemma_orphans_len(rules.drop_last(), edges);
    }
}

fn push_word(v: &mut Vec<String>, word: &str)
    ensures
        ids_view(final(v)@) == ids_view(old(v)@).push(word@),
{
    v.push(String::from_str(word));
    assert(ids_view(v@) =~= ids_view(old(v)@).push(word@));
}

/// Whether a requirement that produces the rule is referenced by a source.
fn has_sourced_producer(edges: &[Edge], rule_id: &str) -> (b: bool)
    ensures
        b == source_behind_producer(edges_view(edges@), rule_id@),
{
    let ghost ev = edges_view(edges@);
    let mut i: usize = 0;
    while i < edges.len()
        invariant
            0 <= i <= edges@.len(),
            ev == edges_view(edges@),
            forall|j: int| 0 <= j < i ==> !(produced_by_requirement(#[trigger] ev[j], rule_id@) && sourced(ev, ev[j].from_id)),
        decreases edges@.len() - i,
    {
        let e = &edges[i];
        assert(ev[i as int] == e@);
        if e.edge_type == EdgeType::Produces && e.from_type == NodeType::Requirement && crate::text::str_equal(
            e.to_id.as_str(),
            rule_id,
        ) {
            if has_edge(edges, &EdgePattern {
                edge_type: Some(EdgeType::References),
                from_type: Some(NodeType::Source),
                from_id: None,
                to_type: Some(NodeType::Requirement),
                to_id: Some(e.from_id.as_str()),
            }) {
                return true;
            }
        }
        i = i + 1;
    }
    false
}

/// The links a rule lacks.
fn missing_for(edges: &[Edge], rule_id: &str) -> (r: Vec<String>)
    ensures
        ids_view(r@) == missing_links(edges_view(edges@), rule_id@),
{
    let has_requirement = has_edge(edges, &EdgePattern {
        edge_type: Some(EdgeType::Produces),
        from_type: Some(NodeType::Requirement),
        from_id: None,
        to_type: None,
        to_id: Some(rule_id),
    });
    let has_resolution = has_edge(edges, &EdgePattern {
        edge_type: Some(EdgeType::Produces),
        from_type: Some(NodeType::Resolution),
        from_id: None,
        to_type: None,
        to_id: Some(rule_id),
    });
    let has_source = has_sourced_producer(edges, rule_id);
    let mut missing: Vec<String> = Vec::new();
    if !has_requirement {
        push_word(&mut missing, "requirement");
    }
    if !has_resolution {
        push_word(&mut missing, "resolution");
    }
    if !has_source {
        push_word(&mut missing, "source");
    }
    assert(ids_view(missing@) =~= missing_links(edges_view(edges@), rule_id@));
    missing
}

/// The rules that lack a requirement, a resolution or a source.
pub fn orphan_rules(rule_ids: &[String], edges: &[Edge]) -> (r: Vec<OrphanRuleItem>)
    ensures
        r@.map_values(|o: OrphanRuleItem| o@) == orphans(ids_view(rule_ids@), edges_view(edges@)),
{
    let ghost ev = edges_view(edges@);
    let mut r: Vec<OrphanRuleItem> = Vec::new();
    let mut i: usize = 0;
    while i < rule_ids.len()
        invariant
            0 <= i <= rule_ids@.len(),
            ev == edges_view(edges@),
            r@.map_values(|o: OrphanRuleItem| o@) == orphans(ids_view(rule_ids@).subrange(0, i as int), ev),
        decreases rule_ids@.len() - i,
    {
        let missing = missing_for(edges, rule_ids[i].as_str());
        let ghost prev = r@;
        let ghost ids = ids_view(rule_ids@).subrange(0, i + 1);
        proof {
            assert(ids.drop_last() =~= ids_view(rule_ids@).subrange(0, i as int));
            assert(ids.last() == rule_ids@[i as int]@);
        }
        if missing.len() > 0 {
            let item = OrphanRuleItem { rule_id: rule_ids[i].clone(), missing };
            r.push(item);
            assert(r@.map_values(|o: OrphanRuleItem| o@) =~= prev.map_values(|o: OrphanRuleItem| o@).push(item@));
        }
        assert(r@.map_values(|o: OrphanRuleItem| o@) =~= orphans(ids, ev));
        i = i + 1;
    }
    assert(ids_view(rule_ids@).subrange(0, rule_ids@.len() as int) =~= ids_view(rule_ids@));
    r
}

/// The health of a scope from its requirements, rule identifiers and edges,
/// with the stale and gap counts found by their own queries.
pub open spec fn health_spec(
    reqs: Seq<RequirementView>,
    rules: Seq<Seq<char>>,
    edges: Seq<EdgeView>,
    stale: nat,
    gaps: nat,
    h: HealthView,
) -> bool {
    &&& h.requirements.total == reqs.len()
    &&& h.source_linked_requirements == count_linked(reqs, edges)
    &&& h.resolved_requirements == count_resolved(reqs, edges)
    &&& h.requirements_with_rules == count_with_rules(reqs, edges)
    &&& h.rules.total == rules.len()
    &&& h.rules.with_complete_traceability == rules.len() - orphans(rules, edges).len()
    &&& h.stale.total == stale
    &&& h.gaps.total == gaps
}

/// The coverage health of a scope.
pub fn coverage_health(
    requirements: &[RequirementRecord],
    rule_ids: &[String],
    edges: &[Edge],
    stale: usize,
    gaps: usize,
) -> (h: HealthView)
    ensures
        health_spec(
            requirements_view(requirements@),
            ids_view(rule_ids@),
            edges_view(edges@),
            stale as nat,
            gaps as nat,
            h,
        ),
{
    let ghost ev = edges_view(edges@);
    let ghost rv = requirements_view(requirements@);
    let mut linked: usize = 0;
    let mut resolved_count: usize = 0;
    let mut with_rules: usize = 0;
    let mut i: usize = 0;
    while i < requirements.len()
        invariant
            0 <= i <= requirements@.len(),
            ev == edges_view(edges@),
            rv == requirements_view(requirements@),
            linked == count_linked(rv.subrange(0, i as int), ev),
            resolved_count == count_resolved(rv.subrange(0, i as int), ev),
            with_rules == count_with_rules(rv.subrange(0, i as int), ev),
            linked <= i && resolved_count <= i && with_rules <= i,
        decreases requirements@.len() - i,
    {
        let req = &requirements[i];
        proof {
            let s = rv.subrange(0, i + 1);
            assert(s.drop_last() =~= rv.subrange(0, i as int));
            assert(s.last() == req@);
        }
        let id = req.id.as_str();
        if has_edge(edges, &EdgePattern {
            edge_type: Some(EdgeType::References),
            from_type: None,
            from_id: None,
            to_type: None,
            to_id: Some(id),
        }) {
            linked = linked + 1;
        }
        if req.resolved || has_edge(edges, &EdgePattern {
            edge_type: Some(EdgeType::Resolves),
            from_type: None,
            from_id: None,
            to_type: None,
            to_id: Some(id),
        }) {
            resolved_count = resolved_count + 1;
        }
        if has_edge(edges, &EdgePattern {
            edge_type: Some(EdgeType::Produces),
            from_type: Some(NodeType::Requirement),
            from_id: Some(id),
            to_type: None,
            to_id: None,
        }) {
            with_rules = with_rules + 1;
        }
        i = i + 1;
    }
    assert(rv.subrange(0, requirements@.len() as int) =~= rv);
    let orphan_items = orphan_rules(rule_ids, edges);
    proof {
        lemma_orphans_len(ids_view(rule_ids@), ev);
        assert(orphan_items@.map_values(|o: OrphanRuleItem| o@).len() == orphan_items@.len());
    }
    HealthView {
        requirements: CountMetric { total: requirements.len() },
        source_linked_requirements: linked,
        resolved_requirements: resolved_count,
        requirements_with_rules: with_rules,
        rules: RuleHealthMetric {
            total: rule_ids.len(),
            with_complete_traceability: rule_ids.len() - orphan_items.len(),
        },
        stale: CountMetric { total: stale },
        gaps: CountMetric { total: gaps },
    }
}

/// The requirements of a gap graph as the health query reads them.
pub open spec fn graph_requirements(g: GapGraphView) -> Seq<RequirementView> {
    g.requirements.map_values(|r: RequirementEntryView| RequirementView { id: r.id, resolved: r.resolved })
}

/// The coverage health of a scope's graph: the counts over its records and
/// its edges of the scope, and its gaps counted by the gap rule. `stale`
/// is the number of stale resolutions, which turns on the current date.
pub fn scope_health(graph: &GapGraph, stale: usize) -> (h: HealthView)
    ensures
        health_spec(
            graph_requirements(graph@),
            ids_of_rules(graph@),
            edge_views(graph@),
            stale as nat,
            gaps_of(graph@).len(),
            h,
        ),
{
    let q = GraphQuery::new(graph);
    let mut requirements: Vec<RequirementRecord> = Vec::new();
    let mut i: usize = 0;
    while i < graph.requirements.len()
        invariant
            0 <= i <= graph.requirements@.len(),
            requirements_view(requirements@) == graph_requirements(graph@).subrange(0, i as int),
        decreases graph.requirements@.len() - i,
    {
        let r = &graph.requirements[i];
        let ghost before = requirements@;
        requirements.push(RequirementRecord { id: r.id.clone(), resolved: r.resolved });
        assert(requirements_view(requirements@) =~= requirements_view(before).push(
            RequirementView { id: r.id@, resolved: r.resolved },
        ));
        assert(graph_requirements(graph@)[i as int] == (RequirementView { id: r.id@, resolved: r.resolved }));
        assert(graph_requirements(graph@).subrange(0, i + 1) =~= graph_requirements(graph@).subrange(0, i as int).push(
            RequirementView { id: r.id@, resolved: r.resolved },
        ));
        i = i + 1;
    }
    assert(graph_requirements(graph@).subrange(0, graph.requirements@.len() as int) =~= graph_requirements(graph@));
    let gaps = compute_gaps(graph);
    proof {
        assert(gaps_view(gaps@).len() == gaps@.len());
    }
    coverage_health(requirements.as_slice(), q.rule_ids.as_slice(), q.edges.as_slice(), stale, gaps.len())
}

/// The coverage health of a scope's graph at `now` (milliseconds since the
/// epoch): the counts over its records and its edges of the scope, its
/// stale resolutions as `find_stale` finds them among `resolutions` with the
/// graph's rules and edges of the scope, and its gaps as `compute_gaps`
/// finds them.
pub fn scope_health_at(graph: &GapGraph, resolutions: &[ResolutionRecord], now: u64) -> (h: HealthView)
    ensures
        health_spec(
            graph_requirements(graph@),
            ids_of_rules(graph@),
            edge_views(graph@),
            stale_list(
                resolutions@.map_values(|x: ResolutionRecord| x@),
                graph@.rules,
                edge_views(graph@),
                Seq::empty(),
                0,
                0,
                now,
            ).len(),
            gaps_of(graph@).len(),
            h,
        ),
{
    let q = GraphQuery::new(graph);
    let stale = find_stale(resolutions, graph.rules.as_slice(), q.edges.as_slice(), now);
    proof {
        assert(stale@.map_values(|s: StaleResolution| s@).len() == stale@.len());
    }
    scope_health(graph, stale.len())
}

/// Every `produces` edge of the scope that leaves a requirement or a
/// resolution goes to a rule, from a record the graph holds.
pub open spec fn producers_recorded(g: GapGraphView) -> bool {
    forall|i: int|
        0 <= i < edge_views(g).len() && (#[trigger] edge_views(g)[i]).edge_type == EdgeType::Produces && (
        edge_views(g)[i].from_type == NodeType::Requirement || edge_views(g)[i].from_type == NodeType::Resolution)
            ==> edge_views(g)[i].to_type == NodeType::Rule && node_exists(
            g,
            edge_views(g)[i].from_type,
            edge_views(g)[i].from_id,
        )
}

proof fn lemma_producer_agrees(g: GapGraphView, rule_id: Seq<char>, from_type: NodeType, ids: Seq<Seq<char>>)
    requires
        producers_recorded(g),
        from_type == NodeType::Requirement || from_type == NodeType::Resolution,
        from_type == NodeType::Requirement ==> ids == ids_of_requirements(g),
        from_type == NodeType::Resolution ==> ids == ids_of_resolutions(g),
    ensures
        any_edge(edge_views(g), pattern(EdgeType::Produces, Some(from_type), None, None, Some(rule_id)))
            <==> links_from_any(g, ids, EdgeType::Produces, from_type, NodeType::Rule, rule_id),
{
    let ev = edge_views(g);
    let p = pattern(EdgeType::Produces, Some(from_type), None, None, Some(rule_id));
    if any_edge(ev, p) {
        let i = choose|i: int| 0 <= i < ev.len() && edge_matches(#[trigger] ev[i], p);
        let e = ev[i];
        assert(node_exists(g, e.from_type, e.from_id));
        let k = choose|k: int| 0 <= k < ids.len() && ids[k] == e.from_id;
        assert(edge_matches(ev[i], edge_between(EdgeType::Produces, from_type, ids[k], NodeType::Rule, rule_id)));
        assert(linked(g, EdgeType::Produces, from_type, ids[k], NodeType::Rule, rule_id));
    }
    if links_from_any(g, ids, EdgeType::Produces, from_type, NodeType::Rule, rule_id) {
        let k = choose|k: int|
            0 <= k < ids.len() && linked(g, EdgeType::Produces, from_type, #[trigger] ids[k], NodeType::Rule, rule_id);
        let q = edge_between(EdgeType::Produces, from_type, ids[k], NodeType::Rule, rule_id);
        let i = choose|i: int| 0 <= i < ev.len() && edge_matches(#[trigger] ev[i], q);
        assert(edge_matches(ev[i], p));
    }
}

/// The orphan report and the gap rule agree on the producers a rule lacks:
/// the report misses the requirement (or the resolution) of a rule exactly
/// when no requirement (or resolution) of the graph produces it, so it
/// lists a producer as missing exactly when the rule has an orphan gap.
/// This holds when every `produces` edge from a requirement or a resolution
/// goes to a rule from a record the graph holds.
pub proof fn law_orphan_report_agrees_with_gaps(g: GapGraphView, rule: RuleView)
    requires
        producers_recorded(g),
    ensures
        missing_links(edge_views(g), rule.id).contains("requirement"@) <==> !requirement_produces(g, rule.id),
        missing_links(edge_views(g), rule.id).contains("resolution"@) <==> !resolution_produces(g, rule.id),
        rule_gaps_of(g, rule).len() > 0 <==> (missing_links(edge_views(g), rule.id).contains("requirement"@)
            || missing_links(edge_views(g), rule.id).contains("resolution"@)),
{
    reveal_strlit("requirement");
    reveal_strlit("resolution");
    reveal_strlit("source");
    lemma_producer_agrees(g, rule.id, NodeType::Requirement, ids_of_requirements(g));
    lemma_producer_agrees(g, rule.id, NodeType::Resolution, ids_of_resolutions(g));
    let m = missing_links(edge_views(g), rule.id);
    assert("requirement"@.len() == 11 && "resolution"@.len() == 10 && "source"@.len() == 6);
    if m.contains("requirement"@) {
        let k = choose|k: int| 0 <= k < m.len() && m[k] == "requirement"@;
        assert(m[k].len() == 11);
    }
    if m.contains("resolution"@) {
        let k = choose|k: int| 0 <= k < m.len() && m[k] == "resolution"@;
        assert(m[k].len() == 10);
    }
    let has_requirement = any_edge(
        edge_views(g),
        pattern(EdgeType::Produces, Some(NodeType::Requirement), None, None, Some(rule.id)),
    );
    let has_resolution = any_edge(
        edge_views(g),
        pattern(EdgeType::Produces, Some(NodeType::Resolution), None, None, Some(rule.id)),
    );
    if !has_requirement {
        assert(m[0] == "requirement"@);
    }
    if !has_resolution {
        if has_requirement {
            assert(m[0] == "resolution"@);
        } else {
            assert(m[1] == "resolution"@);
        }
    }
}

} // verus!
