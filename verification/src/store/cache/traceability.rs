//! Walking a rule back to the resolutions, requirements and sources behind it.
use vstd::prelude::*;
use super::graph::{contains_id, copy_edges, edges_view, ids_view, Edge, EdgeType, EdgeView, NodeType};
use super::rules::{rules_view, RuleRecord, RuleView};
use crate::text::str_equal;

verus! {

/// The records behind a rule, each list in the order of the scope's records,
/// and the edges they were read from.
#[derive(Clone, Debug, PartialEq, Eq)]
pub struct TraceabilityView {
    pub rule: RuleRecord,
    pub resolutions: Vec<String>,
    pub requirements: Vec<String>,
    pub sources: Vec<String>,
    pub edges: Vec<Edge>,
}

/// A `produces` edge from a resolution to the rule.
pub open spec fn produces_rule_from(e: EdgeView, from_type: NodeType, rule_id: Seq<char>) -> bool {
    e.edge_type == EdgeType::Produces && e.from_type == from_type && e.to_type == NodeType::Rule && e.to_id == rule_id
}

/// The resolutions that produce the rule, one per edge, in edge order.
pub open spec fn resolution_ids_of(edges: Seq<EdgeView>, rule_id: Seq<char>) -> Seq<Seq<char>>
    decreases edges.len(),
{
    if edges.len() == 0 {
        seq![]
    } else {
        let e = edges.last();
        resolution_ids_of(edges.drop_last(), rule_id) + if produces_rule_from(e, NodeType::Resolution, rule_id) {
            seq![e.from_id]
        } else {
            seq![]
        }
    }
}

/// The requirements behind the rule, one per edge, in edge order: the
/// requirement a `produces` edge into the rule comes from, and the
/// requirement a `resolves` edge from one of the rule's resolutions goes to.
pub open spec fn requirement_ids_of(edges: Seq<EdgeView>, rule_id: Seq<char>, resolutions: Seq<Seq<char>>) -> Seq<Seq<char>>
    decreases edges.len(),
{
    if edges.len() == 0 {
        seq![]
    } else {
        let e = edges.last();
        requirement_ids_of(edges.drop_last(), rule_id, resolutions) + if produces_rule_from(e, NodeType::Requirement, rule_id) {
            seq![e.from_id]
        } else if e.edge_type == EdgeType::Resolves && e.from_type == NodeType::Resolution && resolutions.contains(e.from_id) {
            seq![e.to_id]
        } else {
            seq![]
        }
    }
}

/// The sources that reference one of the requirements, one per edge, in
/// edge order.
pub open spec fn source_ids_of(edges: Seq<EdgeView>, requirements: Seq<Seq<char>>) -> Seq<Seq<char>>
    decreases edges.len(),
{
    if edges.len() == 0 {
        seq![]
    } else {
        let e = edges.last();
        source_ids_of(edges.drop_last(), requirements) + if e.edge_type == EdgeType::References && e.from_type
            == NodeType::Source && requirements.contains(e.to_id) {
            seq![e.from_id]
        } else {
            seq![]
        }
    }
}

/// The records whose ids are listed, in record order.
pub open spec fn kept_records(records: Seq<Seq<char>>, ids: Seq<Seq<char>>) -> Seq<Seq<char>>
    decreases records.len(),
{
    if records.len() == 0 {
        seq![]
    } else {
        kept_records(records.drop_last(), ids) + if ids.contains(records.last()) {
            seq![records.last()]
        } else {
            seq![]
        }
    }
}

/// The first rule at or after `i` with the id, by position.
pub open spec fn first_rule_from(rules: Seq<RuleView>, rule_id: Seq<char>, i: int) -> Option<int>
    decreases rules.len() - i,
{
    if i < 0 || i >= rules.len() {
        None
    } else if rules[i].id == rule_id {
        Some(i)
    } else {
        first_rule_from(rules, rule_id, i + 1)
    }
}

/// The first rule with the id, by position.
pub open spec fn first_rule(rules: Seq<RuleView>, rule_id: Seq<char>) -> Option<int> {
    first_rule_from(rules, rule_id, 0)
}

proof fn lemma_first_rule(rules: Seq<RuleView>, rule_id: Seq<char>, i: int)
    requires
        0 <= i,
    ensures
        first_rule_from(rules, rule_id, i) matches Some(k) ==> i <= k < rules.len() && rules[k].id == rule_id,
        first_rule_from(rules, rule_id, i) is None ==> forall|k: int| i <= k < rules.len() ==> rules[k].id != rule_id,
    decreases rules.len() - i,
{
    if i < rules.len() {
        lemma_first_rule(rules, rule_id, i + 1);
    }
}

fn find_rule(rules: &[RuleRecord], rule_id: &str) -> (r: Option<RuleRecord>)
    ensures
        match first_rule(rules_view(rules@), rule_id@) {
            None => r is None,
            Some(k) => r matches Some(x) && x@ == rules_view(rules@)[k],
        },
{
    let ghost rv = rules_view(rules@);
    let mut i: usize = 0;
    while i < rules.len()
        invariant
            0 <= i <= rules@.len(),
            rv == rules_view(rules@),
            first_rule(rv, rule_id@) == first_rule_from(rv, rule_id@, i as int),
        decreases rules@.len() - i,
    {
        assert(rv[i as int] == rules@[i as int]@);
        if str_equal(rules[i].id.as_str(), rule_id) {
            return Some(RuleRecord { id: rules[i].id.clone(), severity: rules[i].severity.clone() });
        }
        i = i + 1;
    }
    None
}

/// The message when the rule is not in the scope.
pub const RULE_NOT_FOUND: &'static str = "rule not found";

fn collect_resolutions(edges: &[Edge], rule_id: &str) -> (r: Vec<String>)
    ensures
        ids_view(r@) == resolution_ids_of(edges_view(edges@), rule_id@),
{
    let ghost ev = edges_view(edges@);
    let mut r: Vec<String> = Vec::new();
    let mut i: usize = 0;
    while i < edges.len()
        invariant
            0 <= i <= edges@.len(),
            ev == edges_view(edges@),
            ids_view(r@) == resolution_ids_of(ev.subrange(0, i as int), rule_id@),
        decreases edges@.len() - i,
    {
        let e = &edges[i];
        proof {
            let s = ev.subrange(0, i + 1);
            assert(s.drop_last() =~= ev.subrange(0, i as int));
            assert(s.last() == e@);
        }
        let ghost prev = ids_view(r@);
        if e.edge_type == EdgeType::Produces && e.from_type == NodeType::Resolution && e.to_type == NodeType::Rule
            && str_equal(e.to_id.as_str(), rule_id) {
            r.push(e.from_id.clone());
            assert(ids_view(r@) =~= prev.push(e.from_id@));
        }
        assert(ids_view(r@) =~= resolution_ids_of(ev.subrange(0, i + 1), rule_id@));
        i = i + 1;
    }
    assert(ev.subrange(0, edges@.len() as int) =~= ev);
    r
}

fn collect_requirements(edges: &[Edge], rule_id: &str, resolutions: &Vec<String>) -> (r: Vec<String>)
    ensures
        ids_view(r@) == requirement_ids_of(edges_view(edges@), rule_id@, ids_view(resolutions@)),
{
    let ghost ev = edges_view(edges@);
    let mut r: Vec<String> = Vec::new();
    let mut i: usize = 0;
    while i < edges.len()
        invariant
            0 <= i <= edges@.len(),
            ev == edges_view(edges@),
            ids_view(r@) == requirement_ids_of(ev.subrange(0, i as int), rule_id@, ids_view(resolutions@)),
        decreases edges@.len() - i,
    {
        let e = &edges[i];
        proof {
            let s = ev.subrange(0, i + 1);
            assert(s.drop_last() =~= ev.subrange(0, i as int));
            assert(s.last() == e@);
        }
        let ghost prev = ids_view(r@);
        let direct = e.edge_type == EdgeType::Produces && e.from_type == NodeType::Requirement && e.to_type
            == NodeType::Rule && str_equal(e.to_id.as_str(), rule_id);
        let resolved = e.edge_type == EdgeType::Resolves && e.from_type == NodeType::Resolution && contains_id(
            resolutions.as_slice(),
            e.from_id.as_str(),
        );
        if direct {
            r.push(e.from_id.clone());
            assert(ids_view(r@) =~= prev.push(e.from_id@));
        } else if resolved {
            r.push(e.to_id.clone());
            assert(ids_view(r@) =~= prev.push(e.to_id@));
        }
        assert(ids_view(r@) =~= requirement_ids_of(ev.subrange(0, i + 1), rule_id@, ids_view(resolutions@)));
        i = i + 1;
    }
    assert(ev.subrange(0, edges@.len() as int) =~= ev);
    r
}

fn collect_sources(edges: &[Edge], requirements: &Vec<String>) -> (r: Vec<String>)
    ensures
        ids_view(r@) == source_ids_of(edges_view(edges@), ids_view(requirements@)),
{
    let ghost ev = edges_view(edges@);
    let mut r: Vec<String> = Vec::new();
    let mut i: usize = 0;
    while i < edges.len()
        invariant
            0 <= i <= edges@.len(),
            ev == edges_view(edges@),
            ids_view(r@) == source_ids_of(ev.subrange(0, i as int), ids_view(requirements@)),
        decreases edges@.len() - i,
    {
        let e = &edges[i];
        proof {
            let s = ev.subrange(0, i + 1);
            assert(s.drop_last() =~= ev.subrange(0, i as int));
            assert(s.last() == e@);
        }
        let ghost prev = ids_view(r@);
        if e.edge_type == EdgeType::References && e.from_type == NodeType::Source && contains_id(
            requirements.as_slice(),
            e.to_id.as_str(),
        ) {
            r.push(e.from_id.clone());
            assert(ids_view(r@) =~= prev.push(e.from_id@));
        }
        assert(ids_view(r@) =~= source_ids_of(ev.subrange(0, i + 1), ids_view(requirements@)));
        i = i + 1;
    }
    assert(ev.subrange(0, edges@.len() as int) =~= ev);
    r
}

fn keep(records: &[String], ids: &Vec<String>) -> (r: Vec<String>)
    ensures
        ids_view(r@) == kept_records(ids_view(records@), ids_view(ids@)),
{
    let ghost rv = ids_view(records@);
    let mut r: Vec<String> = Vec::new();
    let mut i: usize = 0;
    while i < records.len()
        invariant
            0 <= i <= records@.len(),
            rv == ids_view(records@),
            ids_view(r@) == kept_records(rv.subrange(0, i as int), ids_view(ids@)),
        decreases records@.len() - i,
    {
        proof {
            let s = rv.subrange(0, i + 1);
            assert(s.drop_last() =~= rv.subrange(0, i as int));
            assert(s.last() == records@[i as int]@);
        }
        let ghost prev = ids_view(r@);
        if contains_id(ids.as_slice(), records[i].as_str()) {
            r.push(records[i].clone());
            assert(ids_view(r@) =~= prev.push(records@[i as int]@));
        }
        assert(ids_view(r@) =~= kept_records(rv.subrange(0, i + 1), ids_view(ids@)));
        i = i + 1;
    }
    assert(rv.subrange(0, records@.len() as int) =~= rv);
    r
}

/// The records behind a rule: the resolutions that produce it, the
/// requirements that produce it or that those resolutions resolve, and the
/// sources that reference those requirements, each in the order of the
/// scope's records, with the rule itself and every edge read. A rule not
/// among the scope's rules is an error.
pub fn trace_rule(
    rules: &[RuleRecord],
    resolutions: &[String],
    requirements: &[String],
    sources: &[String],
    edges: &[Edge],
    rule_id: &str,
) -> (r: Result<TraceabilityView, String>)
    ensures
        match r {
            Err(m) => first_rule(rules_view(rules@), rule_id@) is None && m@ == RULE_NOT_FOUND@,
            Ok(view) => {
                let ev = edges_view(edges@);
                let res = resolution_ids_of(ev, rule_id@);
                let req = requirement_ids_of(ev, rule_id@, res);
                &&& first_rule(rules_view(rules@), rule_id@) matches Some(k)
                    && view.rule@ == rules_view(rules@)[k]
                &&& ids_view(view.resolutions@) == kept_records(ids_view(resolutions@), res)
                &&& ids_view(view.requirements@) == kept_records(ids_view(requirements@), req)
                &&& ids_view(view.sources@) == kept_records(ids_view(sources@), source_ids_of(ev, req))
                &&& edges_view(view.edges@) == ev
            },
        },
{
    proof {
        lemma_first_rule(rules_view(rules@), rule_id@, 0);
    }
    let rule = match find_rule(rules, rule_id) {
        None => {
            return Err(RULE_NOT_FOUND.to_owned());
        },
        Some(rule) => rule,
    };
    let resolution_ids = collect_resolutions(edges, rule_id);
    let requirement_ids = collect_requirements(edges, rule_id, &resolution_ids);
    let source_ids = collect_sources(edges, &requirement_ids);
    Ok(TraceabilityView {
        rule,
        resolutions: keep(resolutions, &resolution_ids),
        requirements: keep(requirements, &requirement_ids),
        sources: keep(sources, &source_ids),
        edges: copy_edges(edges),
    })
}

} // verus!
