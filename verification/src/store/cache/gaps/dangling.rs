//! Gaps for references to records that the scope does not hold.
use vstd::prelude::*;
use super::frontier::{gap_if, push_gap};
use super::model::{
    for_requirement, gap, gaps_view, related, GapGraphView, GapItem, GapItemView, QuestionEntry,
    QuestionEntryView, RequirementEntryView, ResolutionEntryView, ScopedEdgeView, SourceEntryView,
    ThreadEntryView, TopicEntryView,
};
use super::query::{
    ids_of_requirements, ids_of_resolutions, ids_of_sources, ids_of_topics, node_exists, scoped_edges,
    GraphQuery,
};
use crate::store::cache::graph::{contains_id, node_type_word, node_type_word_of, NodeType};
use crate::store::cache::GapKind;
use crate::text::push_text;

verus! {

/// The text `a` followed by `b`.
fn message(a: &str, b: &str) -> (s: String)
    ensures
        s@ == a@ + b@,
{
    let mut s = String::new();
    push_text(&mut s, a);
    push_text(&mut s, b);
    assert(s@ =~= a@ + b@);
    s
}

/// The source refs of a requirement that name no source of the graph.
pub open spec fn ref_gaps(g: GapGraphView, requirement_id: Seq<char>, refs: Seq<Seq<char>>) -> Seq<GapItemView>
    decreases refs.len(),
{
    if refs.len() == 0 {
        seq![]
    } else {
        let id = refs.last();
        ref_gaps(g, requirement_id, refs.drop_last()) + gap_if(
            !ids_of_sources(g).contains(id),
            related(
                gap(GapKind::DanglingReference, NodeType::Requirement, requirement_id, "source ref points at missing source "@ + id),
                NodeType::Source,
                id,
            ),
        )
    }
}

pub open spec fn requirement_ref_gaps(g: GapGraphView, rs: Seq<RequirementEntryView>) -> Seq<GapItemView>
    decreases rs.len(),
{
    if rs.len() == 0 {
        seq![]
    } else {
        requirement_ref_gaps(g, rs.drop_last()) + ref_gaps(g, rs.last().id, rs.last().source_refs)
    }
}

/// A source superseded by a source the graph does not hold.
pub open spec fn superseded_source_gaps_of(g: GapGraphView, s: SourceEntryView) -> Seq<GapItemView> {
    match s.superseded_by {
        Some(id) => gap_if(
            !ids_of_sources(g).contains(id),
            related(
                gap(GapKind::DanglingReference, NodeType::Source, s.id, "superseded by missing source "@ + id),
                NodeType::Source,
                id,
            ),
        ),
        None => seq![],
    }
}

pub open spec fn superseded_source_gaps(g: GapGraphView, ss: Seq<SourceEntryView>) -> Seq<GapItemView>
    decreases ss.len(),
{
    if ss.len() == 0 {
        seq![]
    } else {
        superseded_source_gaps(g, ss.drop_last()) + superseded_source_gaps_of(g, ss.last())
    }
}

/// A resolution superseded by a resolution the graph does not hold.
pub open spec fn superseded_resolution_gaps_of(g: GapGraphView, r: ResolutionEntryView) -> Seq<GapItemView> {
    match r.superseded_by {
        Some(id) => gap_if(
            !ids_of_resolutions(g).contains(id),
            related(
                gap(GapKind::DanglingReference, NodeType::Resolution, r.id, "superseded by missing resolution "@ + id),
                NodeType::Resolution,
                id,
            ),
        ),
        None => seq![],
    }
}

pub open spec fn superseded_resolution_gaps(g: GapGraphView, rs: Seq<ResolutionEntryView>) -> Seq<GapItemView>
    decreases rs.len(),
{
    if rs.len() == 0 {
        seq![]
    } else {
        superseded_resolution_gaps(g, rs.drop_last()) + superseded_resolution_gaps_of(g, rs.last())
    }
}

/// A topic hung off a requirement the graph does not hold.
pub open spec fn topic_ref_gaps_of(g: GapGraphView, t: TopicEntryView) -> Seq<GapItemView> {
    gap_if(
        !ids_of_requirements(g).contains(t.requirement_id),
        related(
            gap(GapKind::DanglingReference, NodeType::Topic, t.id, "topic points at missing requirement "@ + t.requirement_id),
            NodeType::Requirement,
            t.requirement_id,
        ),
    )
}

pub open spec fn topic_ref_gaps(g: GapGraphView, ts: Seq<TopicEntryView>) -> Seq<GapItemView>
    decreases ts.len(),
{
    if ts.len() == 0 {
        seq![]
    } else {
        topic_ref_gaps(g, ts.drop_last()) + topic_ref_gaps_of(g, ts.last())
    }
}

/// A question pointing at a missing topic.
pub open spec fn question_topic_gap(g: GapGraphView, q: QuestionEntryView) -> Seq<GapItemView> {
    gap_if(
        !ids_of_topics(g).contains(q.topic_id),
        for_requirement(
            related(
                gap(GapKind::DanglingReference, NodeType::Question, q.id, "question points at missing topic "@ + q.topic_id),
                NodeType::Topic,
                q.topic_id,
            ),
            q.requirement_id,
        ),
    )
}

/// A question pointing at a missing requirement.
pub open spec fn question_requirement_gap(g: GapGraphView, q: QuestionEntryView) -> Seq<GapItemView> {
    gap_if(
        !ids_of_requirements(g).contains(q.requirement_id),
        related(
            gap(
                GapKind::DanglingReference,
                NodeType::Question,
                q.id,
                "question points at missing requirement "@ + q.requirement_id,
            ),
            NodeType::Requirement,
            q.requirement_id,
        ),
    )
}

/// A question pointing at a missing resolution.
pub open spec fn question_resolution_gap(g: GapGraphView, q: QuestionEntryView) -> Seq<GapItemView> {
    match q.resolution_id {
        Some(id) => gap_if(
            !ids_of_resolutions(g).contains(id),
            for_requirement(
                related(
                    gap(GapKind::DanglingReference, NodeType::Question, q.id, "question points at missing resolution "@ + id),
                    NodeType::Resolution,
                    id,
                ),
                q.requirement_id,
            ),
        ),
        None => seq![],
    }
}

pub open spec fn question_ref_gaps_of(g: GapGraphView, q: QuestionEntryView) -> Seq<GapItemView> {
    question_topic_gap(g, q) + question_requirement_gap(g, q) + question_resolution_gap(g, q)
}

pub open spec fn question_ref_gaps(g: GapGraphView, qs: Seq<QuestionEntryView>) -> Seq<GapItemView>
    decreases qs.len(),
{
    if qs.len() == 0 {
        seq![]
    } else {
        question_ref_gaps(g, qs.drop_last()) + question_ref_gaps_of(g, qs.last())
    }
}

/// A thread hung off a record the graph does not hold; the gap is about
/// that record.
pub open spec fn thread_ref_gaps_of(g: GapGraphView, t: ThreadEntryView) -> Seq<GapItemView> {
    gap_if(
        !node_exists(g, t.parent_type, t.parent_id),
        gap(
            GapKind::DanglingReference,
            t.parent_type,
            t.parent_id,
            "thread "@ + t.id + " points at missing "@ + node_type_word(t.parent_type) + " "@ + t.parent_id,
        ),
    )
}

pub open spec fn thread_ref_gaps(g: GapGraphView, ts: Seq<ThreadEntryView>) -> Seq<GapItemView>
    decreases ts.len(),
{
    if ts.len() == 0 {
        seq![]
    } else {
        thread_ref_gaps(g, ts.drop_last()) + thread_ref_gaps_of(g, ts.last())
    }
}

/// An edge of the scope from, or to, a record the graph does not hold; each
/// gap is about the missing record.
pub open spec fn edge_ref_gaps_of(g: GapGraphView, e: ScopedEdgeView) -> Seq<GapItemView> {
    let x = e.edge;
    gap_if(
        !node_exists(g, x.from_type, x.from_id),
        gap(
            GapKind::DanglingReference,
            x.from_type,
            x.from_id,
            "edge "@ + e.id + " points from missing "@ + node_type_word(x.from_type) + " "@ + x.from_id,
        ),
    ) + gap_if(
        !node_exists(g, x.to_type, x.to_id),
        related(
            gap(
                GapKind::DanglingReference,
                x.to_type,
                x.to_id,
                "edge "@ + e.id + " points to missing "@ + node_type_word(x.to_type) + " "@ + x.to_id,
            ),
            x.from_type,
            x.from_id,
        ),
    )
}

pub open spec fn edge_ref_gaps(g: GapGraphView, es: Seq<ScopedEdgeView>) -> Seq<GapItemView>
    decreases es.len(),
{
    if es.len() == 0 {
        seq![]
    } else {
        edge_ref_gaps(g, es.drop_last()) + edge_ref_gaps_of(g, es.last())
    }
}

/// Every dangling reference, kind by kind.
pub open spec fn dangling_gaps(g: GapGraphView) -> Seq<GapItemView> {
    requirement_ref_gaps(g, g.requirements) + superseded_source_gaps(g, g.sources) + superseded_resolution_gaps(
        g,
        g.resolutions,
    ) + topic_ref_gaps(g, g.topics) + question_ref_gaps(g, g.questions) + thread_ref_gaps(g, g.threads) + edge_ref_gaps(
        g,
        scoped_edges(g),
    )
}

fn add_requirement_ref_gaps(q: &GraphQuery, gaps: &mut Vec<GapItem>)
    requires
        q.wf(),
    ensures
        gaps_view(final(gaps)@) == gaps_view(old(gaps)@) + requirement_ref_gaps(q.graph@, q.graph@.requirements),
{
    let ghost g = q.graph@;
    let ghost start = gaps_view(gaps@);
    let mut i: usize = 0;
    while i < q.graph.requirements.len()
        invariant
            q.wf(),
            g == q.graph@,
            0 <= i <= g.requirements.len(),
            gaps_view(gaps@) == start + requirement_ref_gaps(g, g.requirements.subrange(0, i as int)),
        decreases g.requirements.len() - i,
    {
        let r = &q.graph.requirements[i];
        proof {
            let s = g.requirements.subrange(0, i + 1);
            assert(s.drop_last() =~= g.requirements.subrange(0, i as int));
            assert(s.last() == r@);
        }
        let ghost base = gaps_view(gaps@);
        let ghost refs = r@.source_refs;
        let mut k: usize = 0;
        while k < r.source_refs.len()
            invariant
                q.wf(),
                g == q.graph@,
                refs == r@.source_refs,
                0 <= k <= refs.len(),
                gaps_view(gaps@) == base + ref_gaps(g, r@.id, refs.subrange(0, k as int)),
            decreases refs.len() - k,
        {
            let id = r.source_refs[k].as_str();
            proof {
                let s = refs.subrange(0, k + 1);
                assert(s.drop_last() =~= refs.subrange(0, k as int));
                assert(s.last() == id@);
            }
            let ghost before = gaps_view(gaps@);
            if !contains_id(q.source_ids.as_slice(), id) {
                push_gap(
                    gaps,
                    GapItem::new(
                        GapKind::DanglingReference,
                        NodeType::Requirement,
                        r.id.as_str(),
                        message("source ref points at missing source ", id),
                    ).with_related(NodeType::Source, id),
                );
            }
            assert(gaps_view(gaps@) =~= base + ref_gaps(g, r@.id, refs.subrange(0, k + 1)));
            k = k + 1;
        }
        assert(refs.subrange(0, refs.len() as int) =~= refs);
        assert(gaps_view(gaps@) =~= start + requirement_ref_gaps(g, g.requirements.subrange(0, i + 1)));
        i = i + 1;
    }
    assert(g.requirements.subrange(0, g.requirements.len() as int) =~= g.requirements);
}

fn add_superseded_source_gaps(q: &GraphQuery, gaps: &mut Vec<GapItem>)
    requires
        q.wf(),
    ensures
        gaps_view(final(gaps)@) == gaps_view(old(gaps)@) + superseded_source_gaps(q.graph@, q.graph@.sources),
{
    let ghost g = q.graph@;
    let ghost start = gaps_view(gaps@);
    let mut i: usize = 0;
    while i < q.graph.sources.len()
        invariant
            q.wf(),
            g == q.graph@,
            0 <= i <= g.sources.len(),
            gaps_view(gaps@) == start + superseded_source_gaps(g, g.sources.subrange(0, i as int)),
        decreases g.sources.len() - i,
    {
        let s = &q.graph.sources[i];
        proof {
            let p = g.sources.subrange(0, i + 1);
            assert(p.drop_last() =~= g.sources.subrange(0, i as int));
            assert(p.last() == s@);
        }
        let ghost base = gaps_view(gaps@);
        if let Some(id) = &s.superseded_by {
            if !contains_id(q.source_ids.as_slice(), id.as_str()) {
                push_gap(
                    gaps,
                    GapItem::new(
                        GapKind::DanglingReference,
                        NodeType::Source,
                        s.id.as_str(),
                        message("superseded by missing source ", id.as_str()),
                    ).with_related(NodeType::Source, id.as_str()),
                );
            }
        }
        assert(gaps_view(gaps@) =~= base + superseded_source_gaps_of(g, s@));
        i = i + 1;
    }
    assert(g.sources.subrange(0, g.sources.len() as int) =~= g.sources);
}

fn add_superseded_resolution_gaps(q: &GraphQuery, gaps: &mut Vec<GapItem>)
    requires
        q.wf(),
    ensures
        gaps_view(final(gaps)@) == gaps_view(old(gaps)@) + superseded_resolution_gaps(q.graph@, q.graph@.resolutions),
{
    let ghost g = q.graph@;
    let ghost start = gaps_view(gaps@);
    let mut i: usize = 0;
    while i < q.graph.resolutions.len()
        invariant
            q.wf(),
            g == q.graph@,
            0 <= i <= g.resolutions.len(),
            gaps_view(gaps@) == start + superseded_resolution_gaps(g, g.resolutions.subrange(0, i as int)),
        decreases g.resolutions.len() - i,
    {
        let r = &q.graph.resolutions[i];
        proof {
            let p = g.resolutions.subrange(0, i + 1);
            assert(p.drop_last() =~= g.resolutions.subrange(0, i as int));
            assert(p.last() == r@);
        }
        let ghost base = gaps_view(gaps@);
        if let Some(id) = &r.superseded_by {
            if !contains_id(q.resolution_ids.as_slice(), id.as_str()) {
                push_gap(
                    gaps,
                    GapItem::new(
                        GapKind::DanglingReference,
                        NodeType::Resolution,
                        r.id.as_str(),
                        message("superseded by missing resolution ", id.as_str()),
                    ).with_related(NodeType::Resolution, id.as_str()),
                );
            }
        }
        assert(gaps_view(gaps@) =~= base + superseded_resolution_gaps_of(g, r@));
        i = i + 1;
    }
    assert(g.resolutions.subrange(0, g.resolutions.len() as int) =~= g.resolutions);
}

fn add_topic_ref_gaps(q: &GraphQuery, gaps: &mut Vec<GapItem>)
    requires
        q.wf(),
    ensures
        gaps_view(final(gaps)@) == gaps_view(old(gaps)@) + topic_ref_gaps(q.graph@, q.graph@.topics),
{
    let ghost g = q.graph@;
    let ghost start = gaps_view(gaps@);
    let mut i: usize = 0;
    while i < q.graph.topics.len()
        invariant
            q.wf(),
            g == q.graph@,
            0 <= i <= g.topics.len(),
            gaps_view(gaps@) == start + topic_ref_gaps(g, g.topics.subrange(0, i as int)),
        decreases g.topics.len() - i,
    {
        let t = &q.graph.topics[i];
        proof {
            let p = g.topics.subrange(0, i + 1);
            assert(p.drop_last() =~= g.topics.subrange(0, i as int));
            assert(p.last() == t@);
        }
        let ghost base = gaps_view(gaps@);
        let rid = t.requirement_id.as_str();
        if !contains_id(q.requirement_ids.as_slice(), rid) {
            push_gap(
                gaps,
                GapItem::new(
                    GapKind::DanglingReference,
                    NodeType::Topic,
                    t.id.as_str(),
                    message("topic points at missing requirement ", rid),
                ).with_related(NodeType::Requirement, rid),
            );
        }
        assert(gaps_view(gaps@) =~= base + topic_ref_gaps_of(g, t@));
        i = i + 1;
    }
    assert(g.topics.subrange(0, g.topics.len() as int) =~= g.topics);
}

fn push_question_ref_gaps(q: &GraphQuery, question: &QuestionEntry, gaps: &mut Vec<GapItem>)
    requires
        q.wf(),
    ensures
        gaps_view(final(gaps)@) == gaps_view(old(gaps)@) + question_ref_gaps_of(q.graph@, question@),
{
    let ghost g = q.graph@;
    let ghost qv = question@;
    let ghost base = gaps_view(gaps@);
    let id = question.id.as_str();
    let rid = question.requirement_id.as_str();
    let tid = question.topic_id.as_str();
    if !contains_id(q.topic_ids.as_slice(), tid) {
        push_gap(
            gaps,
            GapItem::new(
                GapKind::DanglingReference,
                NodeType::Question,
                id,
                message("question points at missing topic ", tid),
            ).with_related(NodeType::Topic, tid).with_requirement(rid),
        );
    }
    assert(gaps_view(gaps@) =~= base + question_topic_gap(g, qv));
    let ghost p1 = gaps_view(gaps@);
    if !contains_id(q.requirement_ids.as_slice(), rid) {
        push_gap(
            gaps,
            GapItem::new(
                GapKind::DanglingReference,
                NodeType::Question,
                id,
                message("question points at missing requirement ", rid),
            ).with_related(NodeType::Requirement, rid),
        );
    }
    assert(gaps_view(gaps@) =~= p1 + question_requirement_gap(g, qv));
    let ghost p2 = gaps_view(gaps@);
    if let Some(res) = &question.resolution_id {
        if !contains_id(q.resolution_ids.as_slice(), res.as_str()) {
            push_gap(
                gaps,
                GapItem::new(
                    GapKind::DanglingReference,
                    NodeType::Question,
                    id,
                    message("question points at missing resolution ", res.as_str()),
                ).with_related(NodeType::Resolution, res.as_str()).with_requirement(rid),
            );
        }
    }
    assert(gaps_view(gaps@) =~= p2 + question_resolution_gap(g, qv));
    assert(gaps_view(gaps@) =~= base + question_ref_gaps_of(g, qv));
}

fn add_question_ref_gaps(q: &GraphQuery, gaps: &mut Vec<GapItem>)
    requires
        q.wf(),
    ensures
        gaps_view(final(gaps)@) == gaps_view(old(gaps)@) + question_ref_gaps(q.graph@, q.graph@.questions),
{
    let ghost g = q.graph@;
    let ghost start = gaps_view(gaps@);
    let mut i: usize = 0;
    while i < q.graph.questions.len()
        invariant
            q.wf(),
            g == q.graph@,
            0 <= i <= g.questions.len(),
            gaps_view(gaps@) == start + question_ref_gaps(g, g.questions.subrange(0, i as int)),
        decreases g.questions.len() - i,
    {
        let question = &q.graph.questions[i];
        proof {
            let p = g.questions.subrange(0, i + 1);
            assert(p.drop_last() =~= g.questions.subrange(0, i as int));
            assert(p.last() == question@);
        }
        push_question_ref_gaps(q, question, gaps);
        i = i + 1;
    }
    assert(g.questions.subrange(0, g.questions.len() as int) =~= g.questions);
}

fn add_thread_ref_gaps(q: &GraphQuery, gaps: &mut Vec<GapItem>)
    requires
        q.wf(),
    ensures
        gaps_view(final(gaps)@) == gaps_view(old(gaps)@) + thread_ref_gaps(q.graph@, q.graph@.threads),
{
    let ghost g = q.graph@;
    let ghost start = gaps_view(gaps@);
    let mut i: usize = 0;
    while i < q.graph.threads.len()
        invariant
            q.wf(),
            g == q.graph@,
            0 <= i <= g.threads.len(),
            gaps_view(gaps@) == start + thread_ref_gaps(g, g.threads.subrange(0, i as int)),
        decreases g.threads.len() - i,
    {
        let t = &q.graph.threads[i];
        proof {
            let p = g.threads.subrange(0, i + 1);
            assert(p.drop_last() =~= g.threads.subrange(0, i as int));
            assert(p.last() == t@);
        }
        let ghost base = gaps_view(gaps@);
        let pid = t.parent_id.as_str();
        if !q.node_exists(t.parent_type, pid) {
            let mut reason = String::new();
            push_text(&mut reason, "thread ");
            push_text(&mut reason, t.id.as_str());
            push_text(&mut reason, " points at missing ");
            push_text(&mut reason, node_type_word_of(t.parent_type));
            push_text(&mut reason, " ");
            push_text(&mut reason, pid);
            push_gap(gaps, GapItem::new(GapKind::DanglingReference, t.parent_type, pid, reason));
        }
        assert(gaps_view(gaps@) =~= base + thread_ref_gaps_of(g, t@));
        i = i + 1;
    }
    assert(g.threads.subrange(0, g.threads.len() as int) =~= g.threads);
}

fn edge_message(edge_id: &str, direction: &str, node_type: NodeType, id: &str) -> (s: String)
    ensures
        s@ == "edge "@ + edge_id@ + direction@ + node_type_word(node_type) + " "@ + id@,
{
    let mut s = String::new();
    push_text(&mut s, "edge ");
    push_text(&mut s, edge_id);
    push_text(&mut s, direction);
    push_text(&mut s, node_type_word_of(node_type));
    push_text(&mut s, " ");
    push_text(&mut s, id);
    s
}

fn add_edge_ref_gaps(q: &GraphQuery, gaps: &mut Vec<GapItem>)
    requires
        q.wf(),
    ensures
        gaps_view(final(gaps)@) == gaps_view(old(gaps)@) + edge_ref_gaps(q.graph@, scoped_edges(q.graph@)),
{
    let ghost g = q.graph@;
    let ghost es = scoped_edges(g);
    let ghost start = gaps_view(gaps@);
    let mut i: usize = 0;
    while i < q.scoped.len()
        invariant
            q.wf(),
            g == q.graph@,
            es == scoped_edges(g),
            0 <= i <= es.len(),
            gaps_view(gaps@) == start + edge_ref_gaps(g, es.subrange(0, i as int)),
        decreases es.len() - i,
    {
        let e = &q.scoped[i];
        proof {
            assert(es[i as int] == e@);
            let p = es.subrange(0, i + 1);
            assert(p.drop_last() =~= es.subrange(0, i as int));
            assert(p.last() == e@);
        }
        let ghost base = gaps_view(gaps@);
        let x = &e.edge;
        if !q.node_exists(x.from_type, x.from_id.as_str()) {
            push_gap(
                gaps,
                GapItem::new(
                    GapKind::DanglingReference,
                    x.from_type,
                    x.from_id.as_str(),
                    edge_message(e.id.as_str(), " points from missing ", x.from_type, x.from_id.as_str()),
                ),
            );
        }
        if !q.node_exists(x.to_type, x.to_id.as_str()) {
            push_gap(
                gaps,
                GapItem::new(
                    GapKind::DanglingReference,
                    x.to_type,
                    x.to_id.as_str(),
                    edge_message(e.id.as_str(), " points to missing ", x.to_type, x.to_id.as_str()),
                ).with_related(x.from_type, x.from_id.as_str()),
            );
        }
        assert(gaps_view(gaps@) =~= base + edge_ref_gaps_of(g, e@));
        i = i + 1;
    }
    assert(es.subrange(0, es.len() as int) =~= es);
}

/// Adds every dangling reference, kind by kind.
pub fn add_dangling_gaps(q: &GraphQuery, gaps: &mut Vec<GapItem>)
    requires
        q.wf(),
    ensures
        gaps_view(final(gaps)@) == gaps_view(old(gaps)@) + dangling_gaps(q.graph@),
{
    let ghost g = q.graph@;
    let ghost start = gaps_view(gaps@);
    add_requirement_ref_gaps(q, gaps);
    add_superseded_source_gaps(q, gaps);
    add_superseded_resolution_gaps(q, gaps);
    add_topic_ref_gaps(q, gaps);
    add_question_ref_gaps(q, gaps);
    add_thread_ref_gaps(q, gaps);
    add_edge_ref_gaps(q, gaps);
    assert(gaps_view(gaps@) =~= start + dangling_gaps(g));
}

} // verus!
