//! Gaps on the shaping frontier: requirements, resolutions, rules and
//! sources that are not yet tied in, and questions and topics still open.
use vstd::prelude::*;
use super::model::{
    for_requirement, gap, gaps_view, GapGraphView, GapItem, GapItemView, QuestionEntryView,
    QuestionStatus, RequirementEntry, RequirementEntryView, ResolutionEntryView, SourceEntryView, TopicEntryView,
};
use super::query::{
    has_rules_for_requirement, has_rules_for_resolution, has_valid_source, requirement_produces,
    resolution_produces, resolves_any, resolving, source_referenced, GraphQuery,
};
use crate::store::cache::graph::NodeType;
use crate::store::cache::rules::RuleView;
use crate::store::cache::GapKind;

verus! {

/// Appends one gap.
pub fn push_gap(gaps: &mut Vec<GapItem>, item: GapItem)
    ensures
        gaps_view(final(gaps)@) == gaps_view(old(gaps)@).push(item@),
{
    let ghost before = gaps@;
    gaps.push(item);
    assert(gaps_view(gaps@) =~= gaps_view(before).push(item@));
}

/// The one-gap list when `cond` holds, else the empty list.
pub open spec fn gap_if(cond: bool, g: GapItemView) -> Seq<GapItemView> {
    if cond {
        seq![g]
    } else {
        seq![]
    }
}

/// A requirement without a domain.
pub open spec fn domain_gap(r: RequirementEntryView) -> Seq<GapItemView> {
    gap_if(r.domain_id is None, gap(GapKind::MissingDomainId, NodeType::Requirement, r.id, "requirement has no domain_id"@))
}

/// A requirement without a live source.
pub open spec fn source_ref_gap(g: GapGraphView, r: RequirementEntryView) -> Seq<GapItemView> {
    gap_if(
        !has_valid_source(g, r),
        gap(GapKind::MissingSourceRefs, NodeType::Requirement, r.id, "requirement has no source refs"@),
    )
}

/// A resolved requirement that no resolution resolves.
pub open spec fn decision_gap(g: GapGraphView, r: RequirementEntryView) -> Seq<GapItemView> {
    gap_if(
        r.resolved && resolving(g, r.id).len() == 0,
        gap(GapKind::NoResolvingDecision, NodeType::Requirement, r.id, "resolved requirement has no resolving decision"@),
    )
}

/// A resolved or decided requirement with no rule downstream.
pub open spec fn downstream_gap(g: GapGraphView, r: RequirementEntryView) -> Seq<GapItemView> {
    gap_if(
        (r.resolved || resolving(g, r.id).len() > 0) && !has_rules_for_requirement(g, r.id),
        gap(GapKind::NoProducedRules, NodeType::Requirement, r.id, "resolved requirement has no downstream rule"@),
    )
}

/// A requirement's gaps: no domain, no live source, resolved without a
/// resolving decision, and resolved (or decided) without a downstream rule.
pub open spec fn requirement_gaps_of(g: GapGraphView, r: RequirementEntryView) -> Seq<GapItemView> {
    domain_gap(r) + source_ref_gap(g, r) + decision_gap(g, r) + downstream_gap(g, r)
}

pub open spec fn requirement_gaps(g: GapGraphView, rs: Seq<RequirementEntryView>) -> Seq<GapItemView>
    decreases rs.len(),
{
    if rs.len() == 0 {
        seq![]
    } else {
        requirement_gaps(g, rs.drop_last()) + requirement_gaps_of(g, rs.last())
    }
}

/// A resolution's gaps: it resolves no requirement, and it is approved but
/// produced no rule.
pub open spec fn resolution_gaps_of(g: GapGraphView, r: ResolutionEntryView) -> Seq<GapItemView> {
    gap_if(
        !resolves_any(g, r.id),
        gap(GapKind::OrphanResolution, NodeType::Resolution, r.id, "resolution does not resolve any requirement"@),
    ) + gap_if(
        r.approved && !has_rules_for_resolution(g, r.id),
        gap(GapKind::NoProducedRules, NodeType::Resolution, r.id, "approved resolution produced no rules"@),
    )
}

pub open spec fn resolution_gaps(g: GapGraphView, rs: Seq<ResolutionEntryView>) -> Seq<GapItemView>
    decreases rs.len(),
{
    if rs.len() == 0 {
        seq![]
    } else {
        resolution_gaps(g, rs.drop_last()) + resolution_gaps_of(g, rs.last())
    }
}

/// Which end is missing when a rule lacks a requirement producer, a
/// resolution producer, or both.
pub open spec fn orphan_reason(by_requirement: bool, by_resolution: bool) -> Seq<char> {
    if !by_requirement && !by_resolution {
        "no requirement or resolution produces this rule"@
    } else if !by_resolution {
        "no resolution produces this rule"@
    } else {
        "no requirement produces this rule"@
    }
}

/// A rule is traced only when both a requirement and a resolution of the
/// graph produce it; otherwise it is orphaned, naming the missing end.
pub open spec fn rule_gaps_of(g: GapGraphView, r: RuleView) -> Seq<GapItemView> {
    let by_requirement = requirement_produces(g, r.id);
    let by_resolution = resolution_produces(g, r.id);
    gap_if(
        !(by_requirement && by_resolution),
        gap(GapKind::OrphanRule, NodeType::Rule, r.id, orphan_reason(by_requirement, by_resolution)),
    )
}

pub open spec fn rule_gaps(g: GapGraphView, rs: Seq<RuleView>) -> Seq<GapItemView>
    decreases rs.len(),
{
    if rs.len() == 0 {
        seq![]
    } else {
        rule_gaps(g, rs.drop_last()) + rule_gaps_of(g, rs.last())
    }
}

/// A source nothing references.
pub open spec fn source_gaps_of(g: GapGraphView, s: SourceEntryView) -> Seq<GapItemView> {
    gap_if(
        !source_referenced(g, s.id),
        gap(GapKind::UnreferencedSource, NodeType::Source, s.id, "no requirement references this source"@),
    )
}

pub open spec fn source_gaps(g: GapGraphView, ss: Seq<SourceEntryView>) -> Seq<GapItemView>
    decreases ss.len(),
{
    if ss.len() == 0 {
        seq![]
    } else {
        source_gaps(g, ss.drop_last()) + source_gaps_of(g, ss.last())
    }
}

/// An open or blocked question.
pub open spec fn question_gaps_of(q: QuestionEntryView) -> Seq<GapItemView> {
    match q.status {
        QuestionStatus::Open => seq![
            for_requirement(gap(GapKind::OpenQuestion, NodeType::Question, q.id, "open question"@), q.requirement_id),
        ],
        QuestionStatus::BlockedOnHuman => seq![
            for_requirement(
                gap(GapKind::OpenQuestion, NodeType::Question, q.id, "blocked_on_human question"@),
                q.requirement_id,
            ),
        ],
        QuestionStatus::Answered => seq![],
    }
}

pub open spec fn question_gaps(qs: Seq<QuestionEntryView>) -> Seq<GapItemView>
    decreases qs.len(),
{
    if qs.len() == 0 {
        seq![]
    } else {
        question_gaps(qs.drop_last()) + question_gaps_of(qs.last())
    }
}

/// An open topic.
pub open spec fn topic_gaps_of(t: TopicEntryView) -> Seq<GapItemView> {
    gap_if(
        t.open,
        for_requirement(gap(GapKind::UnexploredTopic, NodeType::Topic, t.id, "unexplored topic"@), t.requirement_id),
    )
}

pub open spec fn topic_gaps(ts: Seq<TopicEntryView>) -> Seq<GapItemView>
    decreases ts.len(),
{
    if ts.len() == 0 {
        seq![]
    } else {
        topic_gaps(ts.drop_last()) + topic_gaps_of(ts.last())
    }
}

fn push_requirement_gaps(q: &GraphQuery, r: &RequirementEntry, gaps: &mut Vec<GapItem>)
    requires
        q.wf(),
    ensures
        gaps_view(final(gaps)@) == gaps_view(old(gaps)@) + requirement_gaps_of(q.graph@, r@),
{
    let ghost g = q.graph@;
    let ghost rv = r@;
    let ghost base = gaps_view(gaps@);
    let id = r.id.as_str();
    let resolving_ids = q.resolving_resolutions(id);
    let decided = resolving_ids.len() > 0;
    if r.domain_id.is_none() {
        push_gap(
            gaps,
            GapItem::new(GapKind::MissingDomainId, NodeType::Requirement, id, "requirement has no domain_id".to_owned()),
        );
    }
    assert(gaps_view(gaps@) =~= base + domain_gap(rv));
    let ghost p1 = gaps_view(gaps@);
    if !q.requirement_has_valid_source(r) {
        push_gap(
            gaps,
            GapItem::new(GapKind::MissingSourceRefs, NodeType::Requirement, id, "requirement has no source refs".to_owned()),
        );
    }
    assert(gaps_view(gaps@) =~= p1 + source_ref_gap(g, rv));
    let ghost p2 = gaps_view(gaps@);
    if r.resolved && !decided {
        push_gap(
            gaps,
            GapItem::new(
                GapKind::NoResolvingDecision,
                NodeType::Requirement,
                id,
                "resolved requirement has no resolving decision".to_owned(),
            ),
        );
    }
    assert(gaps_view(gaps@) =~= p2 + decision_gap(g, rv));
    let ghost p3 = gaps_view(gaps@);
    if (r.resolved || decided) && q.produced_rules_for_requirement(id).len() == 0 {
        push_gap(
            gaps,
            GapItem::new(
                GapKind::NoProducedRules,
                NodeType::Requirement,
                id,
                "resolved requirement has no downstream rule".to_owned(),
            ),
        );
    }
    assert(gaps_view(gaps@) =~= p3 + downstream_gap(g, rv));
    assert(gaps_view(gaps@) =~= base + requirement_gaps_of(g, rv));
}

pub fn add_requirement_gaps(q: &GraphQuery, gaps: &mut Vec<GapItem>)
    requires
        q.wf(),
    ensures
        gaps_view(final(gaps)@) == gaps_view(old(gaps)@) + requirement_gaps(q.graph@, q.graph@.requirements),
{
    let ghost g = q.graph@;
    let ghost start = gaps_view(gaps@);
    let mut i: usize = 0;
    while i < q.graph.requirements.len()
        invariant
            q.wf(),
            g == q.graph@,
            0 <= i <= g.requirements.len(),
            gaps_view(gaps@) == start + requirement_gaps(g, g.requirements.subrange(0, i as int)),
        decreases g.requirements.len() - i,
    {
        let r = &q.graph.requirements[i];
        proof {
            let s = g.requirements.subrange(0, i + 1);
            assert(s.drop_last() =~= g.requirements.subrange(0, i as int));
            assert(s.last() == r@);
        }
        push_requirement_gaps(q, r, gaps);
        i = i + 1;
    }
    assert(g.requirements.subrange(0, g.requirements.len() as int) =~= g.requirements);
}

pub fn add_resolution_gaps(q: &GraphQuery, gaps: &mut Vec<GapItem>)
    requires
        q.wf(),
    ensures
        gaps_view(final(gaps)@) == gaps_view(old(gaps)@) + resolution_gaps(q.graph@, q.graph@.resolutions),
{
    let ghost g = q.graph@;
    let ghost start = gaps_view(gaps@);
    let mut i: usize = 0;
    while i < q.graph.resolutions.len()
        invariant
            q.wf(),
            g == q.graph@,
            0 <= i <= g.resolutions.len(),
            gaps_view(gaps@) == start + resolution_gaps(g, g.resolutions.subrange(0, i as int)),
        decreases g.resolutions.len() - i,
    {
        let r = &q.graph.resolutions[i];
        proof {
            let s = g.resolutions.subrange(0, i + 1);
            assert(s.drop_last() =~= g.resolutions.subrange(0, i as int));
            assert(s.last() == r@);
        }
        let ghost base = gaps_view(gaps@);
        let id = r.id.as_str();
        if !q.resolution_resolves_any_requirement(id) {
            push_gap(
                gaps,
                GapItem::new(
                    GapKind::OrphanResolution,
                    NodeType::Resolution,
                    id,
                    "resolution does not resolve any requirement".to_owned(),
                ),
            );
        }
        if r.approved && q.produced_rules_for_resolution(id).len() == 0 {
            push_gap(
                gaps,
                GapItem::new(GapKind::NoProducedRules, NodeType::Resolution, id, "approved resolution produced no rules".to_owned()),
            );
        }
        assert(gaps_view(gaps@) =~= base + resolution_gaps_of(g, r@));
        i = i + 1;
    }
    assert(g.resolutions.subrange(0, g.resolutions.len() as int) =~= g.resolutions);
}

pub fn add_rule_gaps(q: &GraphQuery, gaps: &mut Vec<GapItem>)
    requires
        q.wf(),
    ensures
        gaps_view(final(gaps)@) == gaps_view(old(gaps)@) + rule_gaps(q.graph@, q.graph@.rules),
{
    let ghost g = q.graph@;
    let ghost start = gaps_view(gaps@);
    let mut i: usize = 0;
    while i < q.graph.rules.len()
        invariant
            q.wf(),
            g == q.graph@,
            0 <= i <= g.rules.len(),
            gaps_view(gaps@) == start + rule_gaps(g, g.rules.subrange(0, i as int)),
        decreases g.rules.len() - i,
    {
        let r = &q.graph.rules[i];
        proof {
            let s = g.rules.subrange(0, i + 1);
            assert(s.drop_last() =~= g.rules.subrange(0, i as int));
            assert(s.last() == r@);
        }
        let ghost base = gaps_view(gaps@);
        let id = r.id.as_str();
        let (by_requirement, by_resolution) = q.rule_producers(id);
        if !(by_requirement && by_resolution) {
            let reason = if !by_requirement && !by_resolution {
                "no requirement or resolution produces this rule"
            } else if !by_resolution {
                "no resolution produces this rule"
            } else {
                "no requirement produces this rule"
            };
            push_gap(gaps, GapItem::new(GapKind::OrphanRule, NodeType::Rule, id, reason.to_owned()));
        }
        assert(gaps_view(gaps@) =~= base + rule_gaps_of(g, r@));
        i = i + 1;
    }
    assert(g.rules.subrange(0, g.rules.len() as int) =~= g.rules);
}

pub fn add_source_gaps(q: &GraphQuery, gaps: &mut Vec<GapItem>)
    requires
        q.wf(),
    ensures
        gaps_view(final(gaps)@) == gaps_view(old(gaps)@) + source_gaps(q.graph@, q.graph@.sources),
{
    let ghost g = q.graph@;
    let ghost start = gaps_view(gaps@);
    let mut i: usize = 0;
    while i < q.graph.sources.len()
        invariant
            q.wf(),
            g == q.graph@,
            0 <= i <= g.sources.len(),
            gaps_view(gaps@) == start + source_gaps(g, g.sources.subrange(0, i as int)),
        decreases g.sources.len() - i,
    {
        let s = &q.graph.sources[i];
        proof {
            let p = g.sources.subrange(0, i + 1);
            assert(p.drop_last() =~= g.sources.subrange(0, i as int));
            assert(p.last() == s@);
        }
        let ghost base = gaps_view(gaps@);
        let id = s.id.as_str();
        if !q.source_is_referenced(id) {
            push_gap(
                gaps,
                GapItem::new(GapKind::UnreferencedSource, NodeType::Source, id, "no requirement references this source".to_owned()),
            );
        }
        assert(gaps_view(gaps@) =~= base + source_gaps_of(g, s@));
        i = i + 1;
    }
    assert(g.sources.subrange(0, g.sources.len() as int) =~= g.sources);
}

pub fn add_question_gaps(q: &GraphQuery, gaps: &mut Vec<GapItem>)
    requires
        q.wf(),
    ensures
        gaps_view(final(gaps)@) == gaps_view(old(gaps)@) + question_gaps(q.graph@.questions),
{
    let ghost g = q.graph@;
    let ghost start = gaps_view(gaps@);
    let mut i: usize = 0;
    while i < q.graph.questions.len()
        invariant
            q.wf(),
            g == q.graph@,
            0 <= i <= g.questions.len(),
            gaps_view(gaps@) == start + question_gaps(g.questions.subrange(0, i as int)),
        decreases g.questions.len() - i,
    {
        let question = &q.graph.questions[i];
        proof {
            let p = g.questions.subrange(0, i + 1);
            assert(p.drop_last() =~= g.questions.subrange(0, i as int));
            assert(p.last() == question@);
        }
        let ghost base = gaps_view(gaps@);
        let id = question.id.as_str();
        match question.status {
            QuestionStatus::Open => {
                push_gap(
                    gaps,
                    GapItem::new(GapKind::OpenQuestion, NodeType::Question, id, "open question".to_owned()).with_requirement(
                        question.requirement_id.as_str(),
                    ),
                );
            },
            QuestionStatus::BlockedOnHuman => {
                push_gap(
                    gaps,
                    GapItem::new(
                        GapKind::OpenQuestion,
                        NodeType::Question,
                        id,
                        "blocked_on_human question".to_owned(),
                    ).with_requirement(question.requirement_id.as_str()),
                );
            },
            QuestionStatus::Answered => {},
        }
        assert(gaps_view(gaps@) =~= base + question_gaps_of(question@));
        i = i + 1;
    }
    assert(g.questions.subrange(0, g.questions.len() as int) =~= g.questions);
}

pub fn add_topic_gaps(q: &GraphQuery, gaps: &mut Vec<GapItem>)
    requires
        q.wf(),
    ensures
        gaps_view(final(gaps)@) == gaps_view(old(gaps)@) + topic_gaps(q.graph@.topics),
{
    let ghost g = q.graph@;
    let ghost start = gaps_view(gaps@);
    let mut i: usize = 0;
    while i < q.graph.topics.len()
        invariant
            q.wf(),
            g == q.graph@,
            0 <= i <= g.topics.len(),
            gaps_view(gaps@) == start + topic_gaps(g.topics.subrange(0, i as int)),
        decreases g.topics.len() - i,
    {
        let t = &q.graph.topics[i];
        proof {
            let p = g.topics.subrange(0, i + 1);
            assert(p.drop_last() =~= g.topics.subrange(0, i as int));
            assert(p.last() == t@);
        }
        let ghost base = gaps_view(gaps@);
        if t.open {
            push_gap(
                gaps,
                GapItem::new(GapKind::UnexploredTopic, NodeType::Topic, t.id.as_str(), "unexplored topic".to_owned()).with_requirement(
                    t.requirement_id.as_str(),
                ),
            );
        }
        assert(gaps_view(gaps@) =~= base + topic_gaps_of(t@));
        i = i + 1;
    }
    assert(g.topics.subrange(0, g.topics.len() as int) =~= g.topics);
}

} // verus!
