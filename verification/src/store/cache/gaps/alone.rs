//! Each kind of gap can be the only gap of a graph: none of them always
//! comes with another.
use vstd::prelude::*;
use super::complete::{
    lemma_all_in_scope,
    lemma_contradiction_gaps_empty, lemma_edge_ref_gaps_empty, lemma_question_gaps_empty, lemma_question_ref_gaps_empty,
    lemma_ref_gaps_empty, lemma_requirement_gaps_empty, lemma_requirement_ref_gaps_empty, lemma_resolution_gaps_empty,
    lemma_rule_gaps_empty, lemma_source_gaps_empty, lemma_superseded_resolution_gaps_empty,
    lemma_superseded_source_gaps_empty, lemma_topic_gaps_empty, lemma_topic_ref_gaps_empty,
};
use super::contradiction::contradiction_gaps;
use super::dangling::{
    dangling_gaps, edge_ref_gaps, question_ref_gaps, question_ref_gaps_of, ref_gaps, requirement_ref_gaps,
    superseded_resolution_gaps, superseded_source_gaps, thread_ref_gaps, thread_ref_gaps_of, topic_ref_gaps,
    topic_ref_gaps_of,
};
use super::frontier::{
    question_gaps, question_gaps_of, requirement_gaps, requirement_gaps_of, resolution_gaps, resolution_gaps_of,
    rule_gaps, rule_gaps_of, source_gaps, source_gaps_of, topic_gaps, topic_gaps_of,
};
use super::gaps_of;
use super::model::{
    GapGraphView, GapItemView, QuestionEntryView, QuestionStatus, RequirementEntryView, ResolutionEntryView,
    ScopedEdgeView, SourceEntryView, ThreadEntryView, TopicEntryView,
};
use super::query::{
    edge_views, has_rules_for_requirement, ids_of_requirements, ids_of_resolutions, ids_of_rules, ids_of_sources,
    ids_of_topics, linked, resolution_produces, requirement_produces, resolves_any, resolving, scoped_edges,
};
use crate::store::cache::graph::{any_edge, edge_matches, EdgeType, EdgeView, NodeType};
use crate::store::cache::rules::{
    edge_between, produced_for, produced_for_requirement, resolving_ids, RuleView,
};
use crate::store::cache::GapKind;

verus! {

/// The kinds of a list of gaps, in order.
pub open spec fn gap_kinds(s: Seq<GapItemView>) -> Seq<GapKind> {
    s.map_values(|x: GapItemView| x.kind)
}

/// A graph of scope `s` with nothing in it.
pub open spec fn bare_graph() -> GapGraphView {
    GapGraphView {
        scope: seq!['s'],
        sources: seq![],
        requirements: seq![],
        resolutions: seq![],
        rules: seq![],
        topics: seq![],
        questions: seq![],
        edges: seq![],
        threads: seq![],
    }
}

/// A source nothing supersedes.
pub open spec fn lone_source() -> SourceEntryView {
    SourceEntryView { id: seq!['s'], superseded_by: None }
}

/// An open requirement with the given domain and source refs.
pub open spec fn open_requirement(id: Seq<char>, domain_id: Option<Seq<char>>, refs: Seq<Seq<char>>) -> RequirementEntryView {
    RequirementEntryView { id, resolved: false, domain_id, source_refs: refs }
}

/// A requirement with a domain and the lone source as its source ref.
pub open spec fn sourced_requirement(id: Seq<char>) -> RequirementEntryView {
    open_requirement(id, Some(seq!['d']), seq![seq!['s']])
}

/// The gap list of a graph without edges splits as the gap rule reads it.
proof fn lemma_without_edges(g: GapGraphView)
    requires
        g.edges.len() == 0,
    ensures
        scoped_edges(g) == Seq::<ScopedEdgeView>::empty(),
        edge_views(g) == Seq::<EdgeView>::empty(),
        edge_ref_gaps(g, scoped_edges(g)) == Seq::<GapItemView>::empty(),
        contradiction_gaps(g, scoped_edges(g)) == Seq::<GapItemView>::empty(),
        forall|id: Seq<char>| #[trigger] resolving(g, id) == Seq::<Seq<char>>::empty(),
{
    assert(scoped_edges(g) =~= Seq::<ScopedEdgeView>::empty());
    assert(edge_views(g) =~= Seq::<EdgeView>::empty());
    lemma_edge_ref_gaps_empty(g, scoped_edges(g));
    lemma_contradiction_gaps_empty(g, scoped_edges(g));
    assert forall|id: Seq<char>| #[trigger] resolving(g, id) == Seq::<Seq<char>>::empty() by {
        lemma_resolving_without_edges(g.resolutions.map_values(|x: ResolutionEntryView| x.id), edge_views(g), id);
    }
}

/// Without edges, nothing resolves a requirement.
proof fn lemma_resolving_without_edges(ids: Seq<Seq<char>>, ev: Seq<EdgeView>, requirement_id: Seq<char>)
    requires
        ev.len() == 0,
    ensures
        resolving_ids(ids, ev, requirement_id) == Seq::<Seq<char>>::empty(),
    decreases ids.len(),
{
    if ids.len() > 0 {
        lemma_resolving_without_edges(ids.drop_last(), ev, requirement_id);
        assert(resolving_ids(ids, ev, requirement_id) =~= Seq::<Seq<char>>::empty());
    }
}

/// The gap lists of one-element lists are those of the element.
proof fn lemma_single_lists(
    g: GapGraphView,
    s: SourceEntryView,
    r: RequirementEntryView,
    x: ResolutionEntryView,
    u: RuleView,
    t: TopicEntryView,
    q: QuestionEntryView,
    h: ThreadEntryView,
)
    ensures
        source_gaps(g, seq![s]) == source_gaps_of(g, s),
        superseded_source_gaps(g, seq![s]) == super::dangling::superseded_source_gaps_of(g, s),
        requirement_gaps(g, seq![r]) == requirement_gaps_of(g, r),
        requirement_ref_gaps(g, seq![r]) == ref_gaps(g, r.id, r.source_refs),
        resolution_gaps(g, seq![x]) == resolution_gaps_of(g, x),
        superseded_resolution_gaps(g, seq![x]) == super::dangling::superseded_resolution_gaps_of(g, x),
        rule_gaps(g, seq![u]) == rule_gaps_of(g, u),
        topic_gaps(seq![t]) == topic_gaps_of(t),
        topic_ref_gaps(g, seq![t]) == topic_ref_gaps_of(g, t),
        question_gaps(seq![q]) == question_gaps_of(q),
        question_ref_gaps(g, seq![q]) == question_ref_gaps_of(g, q),
        thread_ref_gaps(g, seq![h]) == thread_ref_gaps_of(g, h),
{
    assert(seq![s].drop_last() =~= Seq::<SourceEntryView>::empty());
    assert(seq![r].drop_last() =~= Seq::<RequirementEntryView>::empty());
    assert(seq![x].drop_last() =~= Seq::<ResolutionEntryView>::empty());
    assert(seq![u].drop_last() =~= Seq::<RuleView>::empty());
    assert(seq![t].drop_last() =~= Seq::<TopicEntryView>::empty());
    assert(seq![q].drop_last() =~= Seq::<QuestionEntryView>::empty());
    assert(seq![h].drop_last() =~= Seq::<ThreadEntryView>::empty());
    lemma_source_gaps_empty(g, Seq::<SourceEntryView>::empty());
    lemma_superseded_source_gaps_empty(g, Seq::<SourceEntryView>::empty());
    lemma_requirement_gaps_empty(g, Seq::<RequirementEntryView>::empty());
    lemma_requirement_ref_gaps_empty(g, Seq::<RequirementEntryView>::empty());
    lemma_resolution_gaps_empty(g, Seq::<ResolutionEntryView>::empty());
    lemma_superseded_resolution_gaps_empty(g, Seq::<ResolutionEntryView>::empty());
    lemma_rule_gaps_empty(g, Seq::<RuleView>::empty());
    lemma_topic_gaps_empty(Seq::<TopicEntryView>::empty());
    lemma_topic_ref_gaps_empty(g, Seq::<TopicEntryView>::empty());
    lemma_question_gaps_empty(Seq::<QuestionEntryView>::empty());
    lemma_question_ref_gaps_empty(g, Seq::<QuestionEntryView>::empty());
    assert(thread_ref_gaps(g, Seq::<ThreadEntryView>::empty()) == Seq::<GapItemView>::empty());
    assert(source_gaps(g, seq![s]) =~= source_gaps_of(g, s));
    assert(superseded_source_gaps(g, seq![s]) =~= super::dangling::superseded_source_gaps_of(g, s));
    assert(requirement_gaps(g, seq![r]) =~= requirement_gaps_of(g, r));
    assert(requirement_ref_gaps(g, seq![r]) =~= ref_gaps(g, r.id, r.source_refs));
    assert(resolution_gaps(g, seq![x]) =~= resolution_gaps_of(g, x));
    assert(superseded_resolution_gaps(g, seq![x]) =~= super::dangling::superseded_resolution_gaps_of(g, x));
    assert(rule_gaps(g, seq![u]) =~= rule_gaps_of(g, u));
    assert(topic_gaps(seq![t]) =~= topic_gaps_of(t));
    assert(topic_ref_gaps(g, seq![t]) =~= topic_ref_gaps_of(g, t));
    assert(question_gaps(seq![q]) =~= question_gaps_of(q));
    assert(question_ref_gaps(g, seq![q]) =~= question_ref_gaps_of(g, q));
    assert(thread_ref_gaps(g, seq![h]) =~= thread_ref_gaps_of(g, h));
}

/// A requirement without a domain, and nothing else amiss.
proof fn lemma_missing_domain_alone()
    ensures
        gap_kinds(gaps_of(GapGraphView {
            sources: seq![lone_source()],
            requirements: seq![open_requirement(seq!['r'], None, seq![seq!['s']])],
            ..bare_graph()
        })) == seq![GapKind::MissingDomainId],
{
    let r = open_requirement(seq!['r'], None, seq![seq!['s']]);
    let g = GapGraphView { sources: seq![lone_source()], requirements: seq![r], ..bare_graph() };
    lemma_without_edges(g);
    lemma_single_lists(g, lone_source(), r, arbitrary(), arbitrary(), arbitrary(), arbitrary(), arbitrary());
    assert(ids_of_sources(g) =~= seq![seq!['s']]);
    assert(ids_of_sources(g).contains(r.source_refs[0]));
    lemma_ref_gaps_empty(g, r.id, r.source_refs);
    assert(g.requirements[0].source_refs.contains(seq!['s']));
    assert(source_gaps_of(g, lone_source()) == Seq::<GapItemView>::empty());
    assert(requirement_gaps_of(g, r).len() == 1);
    assert(dangling_gaps(g) =~= Seq::<GapItemView>::empty());
    assert(gap_kinds(gaps_of(g)) =~= seq![GapKind::MissingDomainId]);
}

/// A requirement with neither a source ref nor a `references` edge.
proof fn lemma_missing_source_refs_alone()
    ensures
        gap_kinds(gaps_of(GapGraphView {
            requirements: seq![open_requirement(seq!['r'], Some(seq!['d']), seq![])],
            ..bare_graph()
        })) == seq![GapKind::MissingSourceRefs],
{
    let r = open_requirement(seq!['r'], Some(seq!['d']), seq![]);
    let g = GapGraphView { requirements: seq![r], ..bare_graph() };
    lemma_without_edges(g);
    lemma_single_lists(g, arbitrary(), r, arbitrary(), arbitrary(), arbitrary(), arbitrary(), arbitrary());
    lemma_ref_gaps_empty(g, r.id, r.source_refs);
    assert(requirement_gaps_of(g, r).len() == 1);
    assert(dangling_gaps(g) =~= Seq::<GapItemView>::empty());
    assert(gap_kinds(gaps_of(g)) =~= seq![GapKind::MissingSourceRefs]);
}

/// A resolution not yet approved, which nothing supersedes.
pub open spec fn draft_resolution() -> ResolutionEntryView {
    ResolutionEntryView { id: seq!['x'], approved: false, superseded_by: None }
}

/// A resolution that resolves nothing.
proof fn lemma_orphan_resolution_alone()
    ensures
        gap_kinds(gaps_of(GapGraphView { resolutions: seq![draft_resolution()], ..bare_graph() }))
            == seq![GapKind::OrphanResolution],
{
    let g = GapGraphView { resolutions: seq![draft_resolution()], ..bare_graph() };
    lemma_without_edges(g);
    lemma_single_lists(g, arbitrary(), arbitrary(), draft_resolution(), arbitrary(), arbitrary(), arbitrary(), arbitrary());
    assert(resolution_gaps_of(g, draft_resolution()).len() == 1);
    assert(dangling_gaps(g) =~= Seq::<GapItemView>::empty());
    assert(gap_kinds(gaps_of(g)) =~= seq![GapKind::OrphanResolution]);
}

/// A rule.
pub open spec fn lone_rule() -> RuleView {
    RuleView { id: seq!['u'], severity: seq!['h'] }
}

/// A rule nothing produces.
proof fn lemma_orphan_rule_alone()
    ensures
        gap_kinds(gaps_of(GapGraphView { rules: seq![lone_rule()], ..bare_graph() })) == seq![GapKind::OrphanRule],
{
    let g = GapGraphView { rules: seq![lone_rule()], ..bare_graph() };
    lemma_without_edges(g);
    lemma_single_lists(g, arbitrary(), arbitrary(), arbitrary(), lone_rule(), arbitrary(), arbitrary(), arbitrary());
    assert(rule_gaps_of(g, lone_rule()).len() == 1);
    assert(dangling_gaps(g) =~= Seq::<GapItemView>::empty());
    assert(gap_kinds(gaps_of(g)) =~= seq![GapKind::OrphanRule]);
}

/// A source nothing references.
proof fn lemma_unreferenced_source_alone()
    ensures
        gap_kinds(gaps_of(GapGraphView { sources: seq![lone_source()], ..bare_graph() }))
            == seq![GapKind::UnreferencedSource],
{
    let g = GapGraphView { sources: seq![lone_source()], ..bare_graph() };
    lemma_without_edges(g);
    lemma_single_lists(g, lone_source(), arbitrary(), arbitrary(), arbitrary(), arbitrary(), arbitrary(), arbitrary());
    assert(source_gaps_of(g, lone_source()).len() == 1);
    assert(dangling_gaps(g) =~= Seq::<GapItemView>::empty());
    assert(gap_kinds(gaps_of(g)) =~= seq![GapKind::UnreferencedSource]);
}

/// A thread on a source that is not there.
pub open spec fn stray_thread() -> ThreadEntryView {
    ThreadEntryView { id: seq!['t'], parent_type: NodeType::Source, parent_id: seq!['p'] }
}

/// A thread hung off a source the graph does not hold.
proof fn lemma_dangling_reference_alone()
    ensures
        gap_kinds(gaps_of(GapGraphView { threads: seq![stray_thread()], ..bare_graph() }))
            == seq![GapKind::DanglingReference],
{
    let g = GapGraphView { threads: seq![stray_thread()], ..bare_graph() };
    lemma_without_edges(g);
    lemma_single_lists(g, arbitrary(), arbitrary(), arbitrary(), arbitrary(), arbitrary(), arbitrary(), stray_thread());
    assert(ids_of_sources(g) =~= Seq::<Seq<char>>::empty());
    assert(thread_ref_gaps_of(g, stray_thread()).len() == 1);
    assert(dangling_gaps(g) =~= thread_ref_gaps_of(g, stray_thread()));
    assert(gap_kinds(gaps_of(g)) =~= seq![GapKind::DanglingReference]);
}

/// A topic of requirement `r`.
pub open spec fn topic_of_requirement(open: bool) -> TopicEntryView {
    TopicEntryView { id: seq!['t'], requirement_id: seq!['r'], open }
}

/// A source, a requirement it backs, and a topic of that requirement.
pub open spec fn topic_graph(open: bool) -> GapGraphView {
    GapGraphView {
        sources: seq![lone_source()],
        requirements: seq![sourced_requirement(seq!['r'])],
        topics: seq![topic_of_requirement(open)],
        ..bare_graph()
    }
}

/// Nothing is amiss in a topic graph but, perhaps, its topic and questions.
proof fn lemma_topic_graph(g: GapGraphView, open: bool)
    requires
        g.scope == topic_graph(open).scope,
        g.sources == topic_graph(open).sources,
        g.requirements == topic_graph(open).requirements,
        g.resolutions.len() == 0,
        g.rules.len() == 0,
        g.topics == topic_graph(open).topics,
        g.edges.len() == 0,
        g.threads.len() == 0,
    ensures
        requirement_gaps(g, g.requirements) + resolution_gaps(g, g.resolutions) + rule_gaps(g, g.rules) + source_gaps(
            g,
            g.sources,
        ) == Seq::<GapItemView>::empty(),
        requirement_ref_gaps(g, g.requirements) + superseded_source_gaps(g, g.sources) + superseded_resolution_gaps(
            g,
            g.resolutions,
        ) + topic_ref_gaps(g, g.topics) == Seq::<GapItemView>::empty(),
        thread_ref_gaps(g, g.threads) + edge_ref_gaps(g, scoped_edges(g)) == Seq::<GapItemView>::empty(),
        contradiction_gaps(g, scoped_edges(g)) == Seq::<GapItemView>::empty(),
        ids_of_requirements(g).contains(seq!['r']),
{
    let r = sourced_requirement(seq!['r']);
    let t = topic_of_requirement(open);
    lemma_without_edges(g);
    lemma_single_lists(g, lone_source(), r, arbitrary(), arbitrary(), t, arbitrary(), arbitrary());
    assert(ids_of_sources(g) =~= seq![seq!['s']]);
    assert(ids_of_sources(g).contains(r.source_refs[0]));
    assert(ids_of_requirements(g) =~= seq![seq!['r']]);
    assert(ids_of_requirements(g)[0] == seq!['r']);
    assert(ids_of_requirements(g).contains(seq!['r']));
    lemma_ref_gaps_empty(g, r.id, r.source_refs);
    assert(g.requirements[0].source_refs.contains(seq!['s']));
    assert(source_gaps_of(g, lone_source()) == Seq::<GapItemView>::empty());
    assert(requirement_gaps_of(g, r) =~= Seq::<GapItemView>::empty());
    assert(requirement_gaps(g, g.requirements) + resolution_gaps(g, g.resolutions) + rule_gaps(g, g.rules)
        + source_gaps(g, g.sources) =~= Seq::<GapItemView>::empty());
    assert(requirement_ref_gaps(g, g.requirements) + superseded_source_gaps(g, g.sources)
        + superseded_resolution_gaps(g, g.resolutions) + topic_ref_gaps(g, g.topics) =~= Seq::<GapItemView>::empty());
    assert(thread_ref_gaps(g, g.threads) + edge_ref_gaps(g, scoped_edges(g)) =~= Seq::<GapItemView>::empty());
}

/// A topic still open, under a requirement with nothing amiss.
proof fn lemma_unexplored_topic_alone()
    ensures
        gap_kinds(gaps_of(topic_graph(true))) == seq![GapKind::UnexploredTopic],
{
    let g = topic_graph(true);
    lemma_topic_graph(g, true);
    lemma_single_lists(g, arbitrary(), arbitrary(), arbitrary(), arbitrary(), topic_of_requirement(true), arbitrary(), arbitrary());
    assert(dangling_gaps(g) =~= Seq::<GapItemView>::empty());
    assert(gap_kinds(gaps_of(g)) =~= seq![GapKind::UnexploredTopic]);
}

/// An open question on topic `t` of requirement `r`.
pub open spec fn open_question() -> QuestionEntryView {
    QuestionEntryView {
        id: seq!['q'],
        topic_id: seq!['t'],
        requirement_id: seq!['r'],
        status: QuestionStatus::Open,
        resolution_id: None,
    }
}

/// An open question on an explored topic.
proof fn lemma_open_question_alone()
    ensures
        gap_kinds(gaps_of(GapGraphView { questions: seq![open_question()], ..topic_graph(false) }))
            == seq![GapKind::OpenQuestion],
{
    let g = GapGraphView { questions: seq![open_question()], ..topic_graph(false) };
    lemma_topic_graph(g, false);
    lemma_single_lists(g, arbitrary(), arbitrary(), arbitrary(), arbitrary(), topic_of_requirement(false), open_question(), arbitrary());
    assert(ids_of_topics(g) =~= seq![seq!['t']]);
    assert(ids_of_topics(g)[0] == seq!['t']);
    assert(ids_of_topics(g).contains(seq!['t']));
    assert(question_ref_gaps_of(g, open_question()) =~= Seq::<GapItemView>::empty());
    assert(dangling_gaps(g) =~= Seq::<GapItemView>::empty());
    assert(gap_kinds(gaps_of(g)) =~= seq![GapKind::OpenQuestion]);
}

/// An edge of scope `s`.
pub open spec fn scope_edge(id: char, edge_type: EdgeType, from_type: NodeType, from_id: Seq<char>, to_type: NodeType, to_id: Seq<char>) -> ScopedEdgeView {
    ScopedEdgeView { id: seq![id], scope_id: seq!['s'], edge: EdgeView { edge_type, from_type, from_id, to_type, to_id } }
}

/// When every edge is of the graph's scope, the gap rule reads them all.
proof fn lemma_edges_in_scope(g: GapGraphView)
    requires
        forall|k: int| 0 <= k < g.edges.len() ==> (#[trigger] g.edges[k]).scope_id == g.scope,
    ensures
        scoped_edges(g) == g.edges,
        edge_views(g) == g.edges.map_values(|e: ScopedEdgeView| e.edge),
{
    lemma_all_in_scope(g.edges, g.scope);
}

/// Resolution `x` resolves requirement `r`.
pub open spec fn resolves_edge() -> ScopedEdgeView {
    scope_edge('e', EdgeType::Resolves, NodeType::Resolution, seq!['x'], NodeType::Requirement, seq!['r'])
}

/// A requirement a resolution resolves, with no rule downstream.
pub open spec fn decided_graph() -> GapGraphView {
    GapGraphView {
        sources: seq![lone_source()],
        requirements: seq![sourced_requirement(seq!['r'])],
        resolutions: seq![draft_resolution()],
        edges: seq![resolves_edge()],
        ..bare_graph()
    }
}

/// A requirement decided by a resolution, with no rule downstream.
proof fn lemma_no_produced_rules_alone()
    ensures
        gap_kinds(gaps_of(decided_graph())) == seq![GapKind::NoProducedRules],
{
    let g = decided_graph();
    let r = sourced_requirement(seq!['r']);
    let x = draft_resolution();
    let e = resolves_edge();
    lemma_edges_in_scope(g);
    assert(edge_views(g) =~= seq![e.edge]);
    lemma_single_lists(g, lone_source(), r, x, arbitrary(), arbitrary(), arbitrary(), arbitrary());
    assert(ids_of_sources(g) =~= seq![seq!['s']]);
    assert(ids_of_requirements(g) =~= seq![seq!['r']]);
    assert(ids_of_resolutions(g) =~= seq![seq!['x']]);
    assert(ids_of_sources(g).contains(r.source_refs[0]));
    lemma_ref_gaps_empty(g, r.id, r.source_refs);
    assert(g.requirements[0].source_refs.contains(seq!['s']));
    assert(source_gaps_of(g, lone_source()) == Seq::<GapItemView>::empty());
    let p = edge_between(EdgeType::Resolves, NodeType::Resolution, seq!['x'], NodeType::Requirement, seq!['r']);
    assert(edge_matches(edge_views(g)[0], p));
    assert(any_edge(edge_views(g), p));
    let ids = ids_of_resolutions(g);
    assert(ids.drop_last() =~= Seq::<Seq<char>>::empty());
    assert(resolving_ids(ids.drop_last(), edge_views(g), seq!['r']) == Seq::<Seq<char>>::empty());
    assert(ids.last() == seq!['x']);
    assert(resolving(g, seq!['r']) =~= seq![seq!['x']]);
    assert(produced_for_requirement(g.rules, edge_views(g), seq!['r'], resolving(g, seq!['r'])) =~= Seq::<RuleView>::empty());
    assert(!has_rules_for_requirement(g, seq!['r']));
    assert(requirement_gaps_of(g, r).len() == 1);
    assert(linked(g, EdgeType::Resolves, NodeType::Resolution, seq!['x'], NodeType::Requirement, ids_of_requirements(g)[0]));
    assert(resolves_any(g, seq!['x']));
    assert(resolution_gaps_of(g, x) =~= Seq::<GapItemView>::empty());
    assert(super::dangling::edge_ref_gaps_of(g, e) =~= Seq::<GapItemView>::empty()) by {
        assert(ids_of_resolutions(g)[0] == seq!['x']);
        assert(ids_of_requirements(g)[0] == seq!['r']);
    }
    lemma_edge_ref_gaps_empty(g, scoped_edges(g));
    lemma_contradiction_gaps_empty(g, scoped_edges(g));
    assert(dangling_gaps(g) =~= Seq::<GapItemView>::empty());
    assert(gap_kinds(gaps_of(g)) =~= seq![GapKind::NoProducedRules]);
}

/// Requirement `a` contradicts requirement `b`.
pub open spec fn contradicts_edge() -> ScopedEdgeView {
    scope_edge('e', EdgeType::Contradicts, NodeType::Requirement, seq!['a'], NodeType::Requirement, seq!['b'])
}

/// Two sourced requirements that contradict each other, with nothing to
/// settle the pair.
pub open spec fn contradicting_graph() -> GapGraphView {
    GapGraphView {
        sources: seq![lone_source()],
        requirements: seq![sourced_requirement(seq!['a']), sourced_requirement(seq!['b'])],
        edges: seq![contradicts_edge()],
        ..bare_graph()
    }
}

/// Two requirements that contradict each other, with nothing to settle them.
proof fn lemma_unresolved_contradiction_alone()
    ensures
        gap_kinds(gaps_of(contradicting_graph())) == seq![GapKind::UnresolvedContradictsPair],
{
    let g = contradicting_graph();
    let a = sourced_requirement(seq!['a']);
    let b = sourced_requirement(seq!['b']);
    let e = contradicts_edge();
    lemma_edges_in_scope(g);
    assert(edge_views(g) =~= seq![e.edge]);
    lemma_single_lists(g, lone_source(), arbitrary(), arbitrary(), arbitrary(), arbitrary(), arbitrary(), arbitrary());
    assert(ids_of_sources(g) =~= seq![seq!['s']]);
    assert(ids_of_requirements(g) =~= seq![seq!['a'], seq!['b']]);
    assert(ids_of_resolutions(g) =~= Seq::<Seq<char>>::empty());
    assert(ids_of_sources(g)[0] == seq!['s']);
    assert(ids_of_sources(g).contains(seq!['s']));
    assert forall|i: int| 0 <= i < g.requirements.len() implies requirement_gaps_of(g, #[trigger] g.requirements[i])
        == Seq::<GapItemView>::empty() && ref_gaps(g, g.requirements[i].id, g.requirements[i].source_refs)
        == Seq::<GapItemView>::empty() by {
        let r = g.requirements[i];
        assert(ids_of_sources(g).contains(r.source_refs[0]));
        lemma_ref_gaps_empty(g, r.id, r.source_refs);
        assert(resolving(g, r.id) =~= Seq::<Seq<char>>::empty());
        assert(requirement_gaps_of(g, r) =~= Seq::<GapItemView>::empty());
    }
    lemma_requirement_gaps_empty(g, g.requirements);
    lemma_requirement_ref_gaps_empty(g, g.requirements);
    assert(g.requirements[0].source_refs.contains(seq!['s']));
    assert(source_gaps_of(g, lone_source()) == Seq::<GapItemView>::empty());
    assert(super::dangling::edge_ref_gaps_of(g, e) =~= Seq::<GapItemView>::empty()) by {
        assert(ids_of_requirements(g)[0] == seq!['a']);
        assert(ids_of_requirements(g)[1] == seq!['b']);
    }
    lemma_edge_ref_gaps_empty(g, scoped_edges(g));
    assert(dangling_gaps(g) =~= Seq::<GapItemView>::empty());
    let es = scoped_edges(g);
    assert(es.drop_last() =~= Seq::<ScopedEdgeView>::empty());
    assert(contradiction_gaps(g, es.drop_last()) == Seq::<GapItemView>::empty());
    assert(super::contradiction::contradicts(g, e.edge)) by {
        assert(ids_of_requirements(g)[0] == seq!['a']);
        assert(ids_of_requirements(g)[1] == seq!['b']);
    }
    assert(!super::contradiction::contradiction_resolved(g, seq!['a'], seq!['b'])) by {
        assert(resolving(g, seq!['a']) =~= Seq::<Seq<char>>::empty());
        assert(!edge_matches(edge_views(g)[0], edge_between(EdgeType::Supersedes, NodeType::Requirement, seq!['a'], NodeType::Requirement, seq!['b'])));
        assert(!edge_matches(edge_views(g)[0], edge_between(EdgeType::Supersedes, NodeType::Requirement, seq!['b'], NodeType::Requirement, seq!['a'])));
    }
    assert(contradiction_gaps(g, es).len() == 1);
    assert(gap_kinds(gaps_of(g)) =~= seq![GapKind::UnresolvedContradictsPair]);
}

/// A resolved requirement that produces a rule directly; the rule's
/// resolution end comes from a resolution that resolves another
/// requirement.
pub open spec fn undecided_graph() -> GapGraphView {
    GapGraphView {
        sources: seq![lone_source()],
        requirements: seq![
            RequirementEntryView { resolved: true, ..sourced_requirement(seq!['a']) },
            sourced_requirement(seq!['b']),
        ],
        resolutions: seq![draft_resolution()],
        rules: seq![lone_rule()],
        edges: seq![
            scope_edge('p', EdgeType::Produces, NodeType::Requirement, seq!['a'], NodeType::Rule, seq!['u']),
            scope_edge('q', EdgeType::Produces, NodeType::Resolution, seq!['x'], NodeType::Rule, seq!['u']),
            scope_edge('v', EdgeType::Resolves, NodeType::Resolution, seq!['x'], NodeType::Requirement, seq!['b']),
        ],
        ..bare_graph()
    }
}

/// A resolved requirement no resolution resolves, with a rule downstream.
proof fn lemma_no_resolving_decision_alone()
    ensures
        gap_kinds(gaps_of(undecided_graph())) == seq![GapKind::NoResolvingDecision],
{
    let g = undecided_graph();
    let a = g.requirements[0];
    let b = g.requirements[1];
    let x = draft_resolution();
    let u = lone_rule();
    let ev = edge_views(g);
    lemma_edges_in_scope(g);
    assert(ev =~= seq![g.edges[0].edge, g.edges[1].edge, g.edges[2].edge]);
    lemma_single_lists(g, lone_source(), a, x, u, arbitrary(), arbitrary(), arbitrary());
    assert(ids_of_sources(g) =~= seq![seq!['s']]);
    assert(ids_of_requirements(g) =~= seq![seq!['a'], seq!['b']]);
    assert(ids_of_resolutions(g) =~= seq![seq!['x']]);
    assert(ids_of_rules(g) =~= seq![seq!['u']]);
    assert(ids_of_sources(g)[0] == seq!['s']);
    assert(ids_of_sources(g).contains(seq!['s']));
    assert(seq!['a'] != seq!['b']) by {
        assert(seq!['a'][0] != seq!['b'][0]);
    }
    let ids = ids_of_resolutions(g);
    assert(ids.drop_last() =~= Seq::<Seq<char>>::empty());
    assert(ids.last() == seq!['x']);
    assert(resolving_ids(ids.drop_last(), ev, seq!['a']) == Seq::<Seq<char>>::empty());
    assert(resolving_ids(ids.drop_last(), ev, seq!['b']) == Seq::<Seq<char>>::empty());
    // Nothing resolves `a`; `x` resolves `b`.
    let pa = edge_between(EdgeType::Resolves, NodeType::Resolution, seq!['x'], NodeType::Requirement, seq!['a']);
    assert(!any_edge(ev, pa)) by {
        assert(!edge_matches(ev[0], pa));
        assert(!edge_matches(ev[1], pa));
        assert(!edge_matches(ev[2], pa));
    }
    assert(resolving(g, seq!['a']) =~= Seq::<Seq<char>>::empty());
    let pb = edge_between(EdgeType::Resolves, NodeType::Resolution, seq!['x'], NodeType::Requirement, seq!['b']);
    assert(edge_matches(ev[2], pb));
    assert(resolving(g, seq!['b']) =~= seq![seq!['x']]);
    // The rule is produced for both requirements.
    assert(g.rules.drop_last() =~= Seq::<RuleView>::empty());
    assert(produced_for_requirement(g.rules.drop_last(), ev, seq!['a'], resolving(g, seq!['a'])) == Seq::<RuleView>::empty());
    assert(produced_for_requirement(g.rules.drop_last(), ev, seq!['b'], resolving(g, seq!['b'])) == Seq::<RuleView>::empty());
    assert(super::super::rules::produced_from(ev[0], seq!['u'], seq!['a'], resolving(g, seq!['a'])));
    assert(produced_for(ev, seq!['u'], seq!['a'], resolving(g, seq!['a'])));
    assert(has_rules_for_requirement(g, seq!['a']));
    assert(resolving(g, seq!['b']).contains(seq!['x'])) by {
        assert(resolving(g, seq!['b'])[0] == seq!['x']);
    }
    assert(super::super::rules::produced_from(ev[1], seq!['u'], seq!['b'], resolving(g, seq!['b'])));
    assert(produced_for(ev, seq!['u'], seq!['b'], resolving(g, seq!['b'])));
    assert(has_rules_for_requirement(g, seq!['b']));
    assert(ids_of_sources(g).contains(a.source_refs[0]));
    assert(ids_of_sources(g).contains(b.source_refs[0]));
    assert(requirement_gaps_of(g, a).len() == 1);
    assert(requirement_gaps_of(g, b) =~= Seq::<GapItemView>::empty());
    assert(g.requirements.drop_last() =~= seq![a]);
    assert(requirement_gaps(g, g.requirements) =~= requirement_gaps_of(g, a));
    lemma_ref_gaps_empty(g, a.id, a.source_refs);
    lemma_ref_gaps_empty(g, b.id, b.source_refs);
    assert(requirement_ref_gaps(g, g.requirements) =~= Seq::<GapItemView>::empty());
    // The resolution resolves `b`; the rule has both ends.
    assert(linked(g, EdgeType::Resolves, NodeType::Resolution, seq!['x'], NodeType::Requirement, ids_of_requirements(g)[1]));
    assert(resolves_any(g, seq!['x']));
    assert(resolution_gaps_of(g, x) =~= Seq::<GapItemView>::empty());
    assert(linked(g, EdgeType::Produces, NodeType::Requirement, ids_of_requirements(g)[0], NodeType::Rule, seq!['u'])) by {
        assert(edge_matches(ev[0], edge_between(EdgeType::Produces, NodeType::Requirement, seq!['a'], NodeType::Rule, seq!['u'])));
    }
    assert(requirement_produces(g, seq!['u']));
    assert(linked(g, EdgeType::Produces, NodeType::Resolution, ids_of_resolutions(g)[0], NodeType::Rule, seq!['u'])) by {
        assert(edge_matches(ev[1], edge_between(EdgeType::Produces, NodeType::Resolution, seq!['x'], NodeType::Rule, seq!['u'])));
    }
    assert(resolution_produces(g, seq!['u']));
    assert(rule_gaps_of(g, u) =~= Seq::<GapItemView>::empty());
    assert(g.requirements[0].source_refs.contains(seq!['s']));
    assert(source_gaps_of(g, lone_source()) == Seq::<GapItemView>::empty());
    // Every edge joins records the graph holds, and none is `contradicts`.
    assert forall|k: int| 0 <= k < scoped_edges(g).len() implies super::dangling::edge_ref_gaps_of(
        g,
        #[trigger] scoped_edges(g)[k],
    ) == Seq::<GapItemView>::empty() by {
        assert(ids_of_requirements(g)[0] == seq!['a']);
        assert(ids_of_requirements(g)[1] == seq!['b']);
        assert(ids_of_resolutions(g)[0] == seq!['x']);
        assert(ids_of_rules(g)[0] == seq!['u']);
        assert(super::dangling::edge_ref_gaps_of(g, scoped_edges(g)[k]) =~= Seq::<GapItemView>::empty());
    }
    lemma_edge_ref_gaps_empty(g, scoped_edges(g));
    lemma_contradiction_gaps_empty(g, scoped_edges(g));
    assert(dangling_gaps(g) =~= Seq::<GapItemView>::empty());
    assert(gap_kinds(gaps_of(g)) =~= seq![GapKind::NoResolvingDecision]);
}

/// Every kind of gap can be the only gap of a graph: for each kind there is
/// a graph whose gap list, as `compute_gaps` returns it, holds exactly one
/// gap, and of that kind.
pub proof fn law_every_gap_kind_can_stand_alone(kind: GapKind)
    ensures
        exists|g: GapGraphView| #[trigger] gap_kinds(gaps_of(g)) == seq![kind],
{
    match kind {
        GapKind::MissingDomainId => lemma_missing_domain_alone(),
        GapKind::MissingSourceRefs => lemma_missing_source_refs_alone(),
        GapKind::NoResolvingDecision => lemma_no_resolving_decision_alone(),
        GapKind::NoProducedRules => lemma_no_produced_rules_alone(),
        GapKind::OrphanRule => lemma_orphan_rule_alone(),
        GapKind::OrphanResolution => lemma_orphan_resolution_alone(),
        GapKind::UnreferencedSource => lemma_unreferenced_source_alone(),
        GapKind::DanglingReference => lemma_dangling_reference_alone(),
        GapKind::UnresolvedContradictsPair => lemma_unresolved_contradiction_alone(),
        GapKind::OpenQuestion => lemma_open_question_alone(),
        GapKind::UnexploredTopic => lemma_unexplored_topic_alone(),
    }
}

} // verus!
