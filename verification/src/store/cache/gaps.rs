//! The gap rule: which records of a scope are unfinished, and why.
pub mod alone;
pub mod complete;
pub mod contradiction;
pub mod dangling;
pub mod frontier;
pub mod model;
pub mod query;

use vstd::prelude::*;
use contradiction::{
    add_contradiction_gaps, contradiction_gaps, lemma_contradiction_pairs_distinct, same_gap_pair,
};
use dangling::{
    superseded_resolution_gaps_of,
    add_dangling_gaps, dangling_gaps, edge_ref_gaps, question_ref_gaps, ref_gaps, requirement_ref_gaps,
    superseded_resolution_gaps, superseded_source_gaps, thread_ref_gaps, topic_ref_gaps,
};
use frontier::{
    add_question_gaps, add_requirement_gaps, add_resolution_gaps, add_rule_gaps, add_source_gaps,
    add_topic_gaps, gap_if, question_gaps, requirement_gaps, resolution_gaps, rule_gaps, source_gaps,
    topic_gaps,
};
use model::{gaps_view, GapGraph, GapGraphView, GapItem, GapItemView, RequirementEntryView, ResolutionEntryView};
use query::{ids_of_resolutions, scoped_edges, GraphQuery};
use crate::store::cache::graph::NodeType;
use crate::store::cache::GapKind;

verus! {

/// The gaps of a graph in policy order: those of the requirements, the
/// resolutions, the rules and the sources, then the dangling references, the
/// unsettled `contradicts` pairs, the open questions and the open topics.
pub open spec fn gaps_of(g: GapGraphView) -> Seq<GapItemView> {
    requirement_gaps(g, g.requirements) + resolution_gaps(g, g.resolutions) + rule_gaps(g, g.rules) + source_gaps(
        g,
        g.sources,
    ) + dangling_gaps(g) + contradiction_gaps(g, scoped_edges(g)) + question_gaps(g.questions) + topic_gaps(g.topics)
}

/// The gaps of a scope's graph, in stable policy order. A rule counts as
/// traced only when both a requirement and a resolution of the graph are
/// recorded as producing it; either one alone leaves an orphan gap that
/// names the missing end.
pub fn compute_gaps(graph: &GapGraph) -> (r: Vec<GapItem>)
    ensures
        gaps_view(r@) == gaps_of(graph@),
{
    let q = GraphQuery::new(graph);
    let mut gaps: Vec<GapItem> = Vec::new();
    add_requirement_gaps(&q, &mut gaps);
    add_resolution_gaps(&q, &mut gaps);
    add_rule_gaps(&q, &mut gaps);
    add_source_gaps(&q, &mut gaps);
    add_dangling_gaps(&q, &mut gaps);
    add_contradiction_gaps(&q, &mut gaps);
    add_question_gaps(&q, &mut gaps);
    add_topic_gaps(&q, &mut gaps);
    assert(gaps_view(gaps@) =~= gaps_of(graph@));
    gaps
}

/// No gap of the list is about a `contradicts` pair.
pub open spec fn no_pair_gaps(s: Seq<GapItemView>) -> bool {
    forall|i: int| 0 <= i < s.len() ==> (#[trigger] s[i]).kind != GapKind::UnresolvedContradictsPair
}

proof fn lemma_no_pair_concat(a: Seq<GapItemView>, b: Seq<GapItemView>)
    requires
        no_pair_gaps(a),
        no_pair_gaps(b),
    ensures
        no_pair_gaps(a + b),
{
    assert forall|i: int| 0 <= i < (a + b).len() implies (#[trigger] (a + b)[i]).kind
        != GapKind::UnresolvedContradictsPair by {
        if i < a.len() {
            assert((a + b)[i] == a[i]);
        } else {
            assert((a + b)[i] == b[i - a.len()]);
        }
    }
}

proof fn lemma_no_pair_gap_if(c: bool, x: GapItemView)
    requires
        x.kind != GapKind::UnresolvedContradictsPair,
    ensures
        no_pair_gaps(gap_if(c, x)),
{
    if c {
        assert(gap_if(c, x)[0] == x);
    }
}

proof fn lemma_no_pair_requirements(g: GapGraphView, rs: Seq<RequirementEntryView>)
    ensures
        no_pair_gaps(requirement_gaps(g, rs)),
    decreases rs.len(),
{
    if rs.len() > 0 {
        let r = rs.last();
        lemma_no_pair_requirements(g, rs.drop_last());
        assert(no_pair_gaps(frontier::domain_gap(r)));
        assert(no_pair_gaps(frontier::source_ref_gap(g, r)));
        assert(no_pair_gaps(frontier::decision_gap(g, r)));
        assert(no_pair_gaps(frontier::downstream_gap(g, r)));
        lemma_no_pair_concat(frontier::domain_gap(r), frontier::source_ref_gap(g, r));
        lemma_no_pair_concat(frontier::domain_gap(r) + frontier::source_ref_gap(g, r), frontier::decision_gap(g, r));
        lemma_no_pair_concat(
            frontier::domain_gap(r) + frontier::source_ref_gap(g, r) + frontier::decision_gap(g, r),
            frontier::downstream_gap(g, r),
        );
        lemma_no_pair_concat(requirement_gaps(g, rs.drop_last()), frontier::requirement_gaps_of(g, r));
    }
}

proof fn lemma_no_pair_resolutions(g: GapGraphView, rs: Seq<model::ResolutionEntryView>)
    ensures
        no_pair_gaps(resolution_gaps(g, rs)),
    decreases rs.len(),
{
    if rs.len() > 0 {
        let r = rs.last();
        lemma_no_pair_resolutions(g, rs.drop_last());
        let a = gap_if(
            !query::resolves_any(g, r.id),
            model::gap(GapKind::OrphanResolution, crate::store::cache::graph::NodeType::Resolution, r.id, "resolution does not resolve any requirement"@),
        );
        let b = gap_if(
            r.approved && !query::has_rules_for_resolution(g, r.id),
            model::gap(GapKind::NoProducedRules, crate::store::cache::graph::NodeType::Resolution, r.id, "approved resolution produced no rules"@),
        );
        assert(no_pair_gaps(a));
        assert(no_pair_gaps(b));
        lemma_no_pair_concat(a, b);
        lemma_no_pair_concat(resolution_gaps(g, rs.drop_last()), frontier::resolution_gaps_of(g, r));
    }
}

proof fn lemma_no_pair_rules(g: GapGraphView, rs: Seq<crate::store::cache::rules::RuleView>)
    ensures
        no_pair_gaps(rule_gaps(g, rs)),
    decreases rs.len(),
{
    if rs.len() > 0 {
        lemma_no_pair_rules(g, rs.drop_last());
        assert(no_pair_gaps(frontier::rule_gaps_of(g, rs.last())));
        lemma_no_pair_concat(rule_gaps(g, rs.drop_last()), frontier::rule_gaps_of(g, rs.last()));
    }
}

proof fn lemma_no_pair_sources(g: GapGraphView, ss: Seq<model::SourceEntryView>)
    ensures
        no_pair_gaps(source_gaps(g, ss)),
    decreases ss.len(),
{
    if ss.len() > 0 {
        lemma_no_pair_sources(g, ss.drop_last());
        assert(no_pair_gaps(frontier::source_gaps_of(g, ss.last())));
        lemma_no_pair_concat(source_gaps(g, ss.drop_last()), frontier::source_gaps_of(g, ss.last()));
    }
}

proof fn lemma_no_pair_questions(qs: Seq<model::QuestionEntryView>)
    ensures
        no_pair_gaps(question_gaps(qs)),
    decreases qs.len(),
{
    if qs.len() > 0 {
        lemma_no_pair_questions(qs.drop_last());
        let last = frontier::question_gaps_of(qs.last());
        assert(no_pair_gaps(last)) by {
            if last.len() > 0 {
                assert(last.len() == 1);
                assert(last[0].kind == GapKind::OpenQuestion);
            }
        }
        lemma_no_pair_concat(question_gaps(qs.drop_last()), last);
    }
}

proof fn lemma_no_pair_topics(ts: Seq<model::TopicEntryView>)
    ensures
        no_pair_gaps(topic_gaps(ts)),
    decreases ts.len(),
{
    if ts.len() > 0 {
        lemma_no_pair_topics(ts.drop_last());
        assert(no_pair_gaps(frontier::topic_gaps_of(ts.last())));
        lemma_no_pair_concat(topic_gaps(ts.drop_last()), frontier::topic_gaps_of(ts.last()));
    }
}

proof fn lemma_no_pair_refs(g: GapGraphView, id: Seq<char>, refs: Seq<Seq<char>>)
    ensures
        no_pair_gaps(ref_gaps(g, id, refs)),
    decreases refs.len(),
{
    if refs.len() > 0 {
        lemma_no_pair_refs(g, id, refs.drop_last());
        let x = model::related(
            model::gap(
                GapKind::DanglingReference,
                crate::store::cache::graph::NodeType::Requirement,
                id,
                "source ref points at missing source "@ + refs.last(),
            ),
            crate::store::cache::graph::NodeType::Source,
            refs.last(),
        );
        assert(no_pair_gaps(gap_if(!query::ids_of_sources(g).contains(refs.last()), x)));
        lemma_no_pair_concat(ref_gaps(g, id, refs.drop_last()), gap_if(!query::ids_of_sources(g).contains(refs.last()), x));
    }
}

proof fn lemma_no_pair_requirement_refs(g: GapGraphView, rs: Seq<RequirementEntryView>)
    ensures
        no_pair_gaps(requirement_ref_gaps(g, rs)),
    decreases rs.len(),
{
    if rs.len() > 0 {
        lemma_no_pair_requirement_refs(g, rs.drop_last());
        lemma_no_pair_refs(g, rs.last().id, rs.last().source_refs);
        lemma_no_pair_concat(requirement_ref_gaps(g, rs.drop_last()), ref_gaps(g, rs.last().id, rs.last().source_refs));
    }
}

proof fn lemma_no_pair_superseded_sources(g: GapGraphView, ss: Seq<model::SourceEntryView>)
    ensures
        no_pair_gaps(superseded_source_gaps(g, ss)),
    decreases ss.len(),
{
    if ss.len() > 0 {
        lemma_no_pair_superseded_sources(g, ss.drop_last());
        assert(no_pair_gaps(dangling::superseded_source_gaps_of(g, ss.last())));
        lemma_no_pair_concat(superseded_source_gaps(g, ss.drop_last()), dangling::superseded_source_gaps_of(g, ss.last()));
    }
}

proof fn lemma_no_pair_superseded_resolutions(g: GapGraphView, rs: Seq<model::ResolutionEntryView>)
    ensures
        no_pair_gaps(superseded_resolution_gaps(g, rs)),
    decreases rs.len(),
{
    if rs.len() > 0 {
        lemma_no_pair_superseded_resolutions(g, rs.drop_last());
        assert(no_pair_gaps(dangling::superseded_resolution_gaps_of(g, rs.last())));
        lemma_no_pair_concat(
            superseded_resolution_gaps(g, rs.drop_last()),
            dangling::superseded_resolution_gaps_of(g, rs.last()),
        );
    }
}

proof fn lemma_no_pair_topic_refs(g: GapGraphView, ts: Seq<model::TopicEntryView>)
    ensures
        no_pair_gaps(topic_ref_gaps(g, ts)),
    decreases ts.len(),
{
    if ts.len() > 0 {
        lemma_no_pair_topic_refs(g, ts.drop_last());
        assert(no_pair_gaps(dangling::topic_ref_gaps_of(g, ts.last())));
        lemma_no_pair_concat(topic_ref_gaps(g, ts.drop_last()), dangling::topic_ref_gaps_of(g, ts.last()));
    }
}

proof fn lemma_no_pair_question_refs(g: GapGraphView, qs: Seq<model::QuestionEntryView>)
    ensures
        no_pair_gaps(question_ref_gaps(g, qs)),
    decreases qs.len(),
{
    if qs.len() > 0 {
        let q = qs.last();
        lemma_no_pair_question_refs(g, qs.drop_last());
        assert(no_pair_gaps(dangling::question_topic_gap(g, q)));
        assert(no_pair_gaps(dangling::question_requirement_gap(g, q)));
        assert(no_pair_gaps(dangling::question_resolution_gap(g, q)));
        lemma_no_pair_concat(dangling::question_topic_gap(g, q), dangling::question_requirement_gap(g, q));
        lemma_no_pair_concat(
            dangling::question_topic_gap(g, q) + dangling::question_requirement_gap(g, q),
            dangling::question_resolution_gap(g, q),
        );
        lemma_no_pair_concat(question_ref_gaps(g, qs.drop_last()), dangling::question_ref_gaps_of(g, q));
    }
}

proof fn lemma_no_pair_thread_refs(g: GapGraphView, ts: Seq<model::ThreadEntryView>)
    ensures
        no_pair_gaps(thread_ref_gaps(g, ts)),
    decreases ts.len(),
{
    if ts.len() > 0 {
        lemma_no_pair_thread_refs(g, ts.drop_last());
        assert(no_pair_gaps(dangling::thread_ref_gaps_of(g, ts.last())));
        lemma_no_pair_concat(thread_ref_gaps(g, ts.drop_last()), dangling::thread_ref_gaps_of(g, ts.last()));
    }
}

proof fn lemma_no_pair_edge_refs(g: GapGraphView, es: Seq<model::ScopedEdgeView>)
    ensures
        no_pair_gaps(edge_ref_gaps(g, es)),
    decreases es.len(),
{
    if es.len() > 0 {
        let e = es.last();
        let x = e.edge;
        lemma_no_pair_edge_refs(g, es.drop_last());
        let a = gap_if(
            !query::node_exists(g, x.from_type, x.from_id),
            model::gap(
                GapKind::DanglingReference,
                x.from_type,
                x.from_id,
                "edge "@ + e.id + " points from missing "@ + crate::store::cache::graph::node_type_word(x.from_type) + " "@ + x.from_id,
            ),
        );
        let b = gap_if(
            !query::node_exists(g, x.to_type, x.to_id),
            model::related(
                model::gap(
                    GapKind::DanglingReference,
                    x.to_type,
                    x.to_id,
                    "edge "@ + e.id + " points to missing "@ + crate::store::cache::graph::node_type_word(x.to_type) + " "@ + x.to_id,
                ),
                x.from_type,
                x.from_id,
            ),
        );
        assert(no_pair_gaps(a));
        assert(no_pair_gaps(b));
        lemma_no_pair_concat(a, b);
        lemma_no_pair_concat(edge_ref_gaps(g, es.drop_last()), dangling::edge_ref_gaps_of(g, e));
    }
}

proof fn lemma_no_pair_dangling(g: GapGraphView)
    ensures
        no_pair_gaps(dangling_gaps(g)),
{
    lemma_no_pair_requirement_refs(g, g.requirements);
    lemma_no_pair_superseded_sources(g, g.sources);
    lemma_no_pair_superseded_resolutions(g, g.resolutions);
    lemma_no_pair_topic_refs(g, g.topics);
    lemma_no_pair_question_refs(g, g.questions);
    lemma_no_pair_thread_refs(g, g.threads);
    lemma_no_pair_edge_refs(g, scoped_edges(g));
    let a = requirement_ref_gaps(g, g.requirements);
    let b = superseded_source_gaps(g, g.sources);
    let c = superseded_resolution_gaps(g, g.resolutions);
    let d = topic_ref_gaps(g, g.topics);
    let e = question_ref_gaps(g, g.questions);
    let f = thread_ref_gaps(g, g.threads);
    let h = edge_ref_gaps(g, scoped_edges(g));
    lemma_no_pair_concat(a, b);
    lemma_no_pair_concat(a + b, c);
    lemma_no_pair_concat(a + b + c, d);
    lemma_no_pair_concat(a + b + c + d, e);
    lemma_no_pair_concat(a + b + c + d + e, f);
    lemma_no_pair_concat(a + b + c + d + e + f, h);
}

/// A `contradicts` pair is reported at most once, however many edges name
/// it and whichever way they run.
pub proof fn law_contradiction_pair_reported_once(g: GapGraphView)
    ensures
        forall|i: int, j: int|
            0 <= i < j < gaps_of(g).len() && gaps_of(g)[i].kind == GapKind::UnresolvedContradictsPair && gaps_of(g)[j].kind
                == GapKind::UnresolvedContradictsPair ==> !same_gap_pair(#[trigger] gaps_of(g)[i], #[trigger] gaps_of(g)[j]),
{
    let p1 = requirement_gaps(g, g.requirements);
    let p2 = resolution_gaps(g, g.resolutions);
    let p3 = rule_gaps(g, g.rules);
    let p4 = source_gaps(g, g.sources);
    let p5 = dangling_gaps(g);
    let c = contradiction_gaps(g, scoped_edges(g));
    let q1 = question_gaps(g.questions);
    let q2 = topic_gaps(g.topics);
    lemma_no_pair_requirements(g, g.requirements);
    lemma_no_pair_resolutions(g, g.resolutions);
    lemma_no_pair_rules(g, g.rules);
    lemma_no_pair_sources(g, g.sources);
    lemma_no_pair_dangling(g);
    lemma_no_pair_questions(g.questions);
    lemma_no_pair_topics(g.topics);
    lemma_no_pair_concat(p1, p2);
    lemma_no_pair_concat(p1 + p2, p3);
    lemma_no_pair_concat(p1 + p2 + p3, p4);
    lemma_no_pair_concat(p1 + p2 + p3 + p4, p5);
    lemma_no_pair_concat(q1, q2);
    lemma_contradiction_pairs_distinct(g, scoped_edges(g));
    let p = p1 + p2 + p3 + p4 + p5;
    let all = gaps_of(g);
    assert(all =~= p + c + (q1 + q2));
    assert forall|i: int, j: int|
        0 <= i < j < all.len() && all[i].kind == GapKind::UnresolvedContradictsPair && all[j].kind
            == GapKind::UnresolvedContradictsPair implies !same_gap_pair(#[trigger] all[i], #[trigger] all[j]) by {
        if i < p.len() {
            assert(all[i] == p[i]);
        } else if j >= p.len() + c.len() {
            assert(all[j] == (q1 + q2)[j - p.len() - c.len()]);
        } else {
            assert(all[i] == c[i - p.len()]);
            assert(all[j] == c[j - p.len()]);
        }
    }
}


/// An item of either part is an item of the two parts joined.
proof fn lemma_contains_joined(a: Seq<GapItemView>, b: Seq<GapItemView>, x: GapItemView)
    requires
        a.contains(x) || b.contains(x),
    ensures
        (a + b).contains(x),
{
    if a.contains(x) {
        let k = choose|k: int| 0 <= k < a.len() && a[k] == x;
        assert((a + b)[k] == x);
    } else {
        let k = choose|k: int| 0 <= k < b.len() && b[k] == x;
        assert((a + b)[a.len() + k] == x);
    }
}

/// The gap about resolution `r` superseded by the missing resolution `id`.
pub open spec fn missing_successor_gap(r: Seq<char>, id: Seq<char>) -> GapItemView {
    GapItemView {
        kind: GapKind::DanglingReference,
        node_type: NodeType::Resolution,
        node_id: r,
        related_node_type: Some(NodeType::Resolution),
        related_node_id: Some(id),
        requirement_id: None,
        reason: "superseded by missing resolution "@ + id,
    }
}

proof fn lemma_superseded_resolution_reported(g: GapGraphView, rs: Seq<ResolutionEntryView>, i: int)
    requires
        0 <= i < rs.len(),
        rs[i].superseded_by is Some,
        forall|k: int| 0 <= k < g.resolutions.len() ==> (#[trigger] g.resolutions[k]).id != rs[i].superseded_by->0,
    ensures
        superseded_resolution_gaps(g, rs).contains(missing_successor_gap(rs[i].id, rs[i].superseded_by->0)),
    decreases rs.len(),
{
    let x = missing_successor_gap(rs[i].id, rs[i].superseded_by->0);
    let prior = rs.drop_last();
    if i == rs.len() - 1 {
        let id = rs[i].superseded_by->0;
        assert(!ids_of_resolutions(g).contains(id)) by {
            if ids_of_resolutions(g).contains(id) {
                let k = choose|k: int| 0 <= k < ids_of_resolutions(g).len() && ids_of_resolutions(g)[k] == id;
                assert(g.resolutions[k].id == id);
            }
        }
        assert(superseded_resolution_gaps_of(g, rs.last()) =~= seq![x]);
        assert(seq![x][0] == x);
        lemma_contains_joined(superseded_resolution_gaps(g, prior), superseded_resolution_gaps_of(g, rs.last()), x);
    } else {
        assert(prior[i] == rs[i]);
        lemma_superseded_resolution_reported(g, prior, i);
        lemma_contains_joined(superseded_resolution_gaps(g, prior), superseded_resolution_gaps_of(g, rs.last()), x);
    }
}

/// A resolution superseded by a resolution the graph does not hold is
/// reported: the gaps of the graph hold a dangling-reference gap on that
/// resolution which points at the missing one.
pub proof fn law_superseded_by_missing_resolution_is_reported(g: GapGraphView, i: int)
    requires
        0 <= i < g.resolutions.len(),
        g.resolutions[i].superseded_by is Some,
        forall|k: int| 0 <= k < g.resolutions.len() ==> (#[trigger] g.resolutions[k]).id != g.resolutions[i].superseded_by->0,
    ensures
        gaps_of(g).contains(
            (GapItemView {
                kind: GapKind::DanglingReference,
                node_type: NodeType::Resolution,
                node_id: g.resolutions[i].id,
                related_node_type: Some(NodeType::Resolution),
                related_node_id: Some(g.resolutions[i].superseded_by->0),
                requirement_id: None,
                reason: "superseded by missing resolution "@ + g.resolutions[i].superseded_by->0,
            }),
        ),
{
    let x = missing_successor_gap(g.resolutions[i].id, g.resolutions[i].superseded_by->0);
    lemma_superseded_resolution_reported(g, g.resolutions, i);
    let r1 = requirement_ref_gaps(g, g.requirements);
    let s1 = superseded_source_gaps(g, g.sources);
    let sr = superseded_resolution_gaps(g, g.resolutions);
    let t1 = topic_ref_gaps(g, g.topics);
    let q1 = question_ref_gaps(g, g.questions);
    let h1 = thread_ref_gaps(g, g.threads);
    let e1 = edge_ref_gaps(g, scoped_edges(g));
    lemma_contains_joined(r1 + s1, sr, x);
    lemma_contains_joined(r1 + s1 + sr, t1, x);
    lemma_contains_joined(r1 + s1 + sr + t1, q1, x);
    lemma_contains_joined(r1 + s1 + sr + t1 + q1, h1, x);
    lemma_contains_joined(r1 + s1 + sr + t1 + q1 + h1, e1, x);
    assert(dangling_gaps(g) == r1 + s1 + sr + t1 + q1 + h1 + e1);
    let p = requirement_gaps(g, g.requirements) + resolution_gaps(g, g.resolutions) + rule_gaps(g, g.rules) + source_gaps(
        g,
        g.sources,
    );
    let c = contradiction_gaps(g, scoped_edges(g));
    let q = question_gaps(g.questions);
    let t = topic_gaps(g.topics);
    lemma_contains_joined(p, dangling_gaps(g), x);
    lemma_contains_joined(p + dangling_gaps(g), c, x);
    lemma_contains_joined(p + dangling_gaps(g) + c, q, x);
    lemma_contains_joined(p + dangling_gaps(g) + c + q, t, x);
}

} // verus!
