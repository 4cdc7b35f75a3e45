//! Gaps for `contradicts` pairs of requirements that nothing has settled.
use vstd::prelude::*;
use super::frontier::{gap_if, push_gap};
use super::model::{gap, gaps_view, related, GapGraphView, GapItem, GapItemView, ScopedEdge, ScopedEdgeView};
use super::query::{ids_of_requirements, linked, resolving, scoped_edges, GraphQuery};
use crate::store::cache::graph::{contains_id, ids_view, Edge, EdgeType, EdgeView, NodeType};
use crate::store::cache::GapKind;
use crate::text::str_equal;

verus! {

/// A `contradicts` edge between two requirements that the graph holds.
pub open spec fn contradicts(g: GapGraphView, e: EdgeView) -> bool {
    &&& e.edge_type == EdgeType::Contradicts
    &&& e.from_type == NodeType::Requirement
    &&& e.to_type == NodeType::Requirement
    &&& ids_of_requirements(g).contains(e.from_id)
    &&& ids_of_requirements(g).contains(e.to_id)
}

/// The two edges join the same two records, in either direction.
pub open spec fn same_pair(a: EdgeView, b: EdgeView) -> bool {
    ||| (a.from_id == b.from_id && a.to_id == b.to_id)
    ||| (a.from_id == b.to_id && a.to_id == b.from_id)
}

/// An earlier `contradicts` edge already named the pair.
pub open spec fn pair_seen(g: GapGraphView, prior: Seq<ScopedEdgeView>, e: EdgeView) -> bool {
    exists|j: int| 0 <= j < prior.len() && contradicts(g, (#[trigger] prior[j]).edge) && same_pair(prior[j].edge, e)
}

/// Some resolution of `right` is also one of `left`.
pub open spec fn shares_resolution(left: Seq<Seq<char>>, right: Seq<Seq<char>>) -> bool {
    exists|k: int| 0 <= k < right.len() && left.contains(#[trigger] right[k])
}

/// One requirement supersedes the other, or one resolution resolves both.
pub open spec fn contradiction_resolved(g: GapGraphView, left: Seq<char>, right: Seq<char>) -> bool {
    ||| linked(g, EdgeType::Supersedes, NodeType::Requirement, left, NodeType::Requirement, right)
    ||| linked(g, EdgeType::Supersedes, NodeType::Requirement, right, NodeType::Requirement, left)
    ||| shares_resolution(resolving(g, left), resolving(g, right))
}

/// Each unsettled `contradicts` pair, once, at the first edge that names it.
pub open spec fn contradiction_gaps(g: GapGraphView, es: Seq<ScopedEdgeView>) -> Seq<GapItemView>
    decreases es.len(),
{
    if es.len() == 0 {
        seq![]
    } else {
        let e = es.last().edge;
        contradiction_gaps(g, es.drop_last()) + gap_if(
            contradicts(g, e) && !pair_seen(g, es.drop_last(), e) && !contradiction_resolved(g, e.from_id, e.to_id),
            related(
                gap(GapKind::UnresolvedContradictsPair, NodeType::Requirement, e.from_id, "unresolved `contradicts` pair"@),
                NodeType::Requirement,
                e.to_id,
            ),
        )
    }
}

/// The two gaps name the same two requirements, in either order.
pub open spec fn same_gap_pair(a: GapItemView, b: GapItemView) -> bool {
    ||| (a.node_id == b.node_id && a.related_node_id == b.related_node_id)
    ||| (Some(a.node_id) == b.related_node_id && a.related_node_id == Some(b.node_id))
}

/// Each contradiction gap comes from a `contradicts` edge of the list and
/// names its two ends.
pub proof fn lemma_contradiction_gap_origin(g: GapGraphView, es: Seq<ScopedEdgeView>, x: int)
    requires
        0 <= x < contradiction_gaps(g, es).len(),
    ensures
        exists|k: int|
            0 <= k < es.len() && contradicts(g, (#[trigger] es[k]).edge) && contradiction_gaps(g, es)[x].node_id
                == es[k].edge.from_id && contradiction_gaps(g, es)[x].related_node_id == Some(es[k].edge.to_id),
        contradiction_gaps(g, es)[x].kind == GapKind::UnresolvedContradictsPair,
    decreases es.len(),
{
    let prior = es.drop_last();
    let head = contradiction_gaps(g, prior);
    if x < head.len() {
        lemma_contradiction_gap_origin(g, prior, x);
        let k = choose|k: int|
            0 <= k < prior.len() && contradicts(g, (#[trigger] prior[k]).edge) && head[x].node_id == prior[k].edge.from_id
                && head[x].related_node_id == Some(prior[k].edge.to_id);
        assert(es[k] == prior[k]);
    } else {
        let k = es.len() - 1;
        assert(es[k] == es.last());
    }
}

/// No two contradiction gaps of the list name the same pair.
pub proof fn lemma_contradiction_pairs_distinct(g: GapGraphView, es: Seq<ScopedEdgeView>)
    ensures
        forall|i: int, j: int|
            0 <= i < j < contradiction_gaps(g, es).len() ==> !same_gap_pair(
                #[trigger] contradiction_gaps(g, es)[i],
                #[trigger] contradiction_gaps(g, es)[j],
            ),
    decreases es.len(),
{
    if es.len() > 0 {
        let prior = es.drop_last();
        let head = contradiction_gaps(g, prior);
        let all = contradiction_gaps(g, es);
        lemma_contradiction_pairs_distinct(g, prior);
        assert forall|i: int, j: int| 0 <= i < j < all.len() implies !same_gap_pair(
            #[trigger] all[i],
            #[trigger] all[j],
        ) by {
            if j < head.len() {
                assert(all[i] == head[i]);
                assert(all[j] == head[j]);
            } else {
                let e = es.last().edge;
                assert(all[i] == head[i]);
                lemma_contradiction_gap_origin(g, prior, i);
                let k = choose|k: int|
                    0 <= k < prior.len() && contradicts(g, (#[trigger] prior[k]).edge) && head[i].node_id
                        == prior[k].edge.from_id && head[i].related_node_id == Some(prior[k].edge.to_id);
                if same_gap_pair(all[i], all[j]) {
                    assert(same_pair(prior[k].edge, e));
                    assert(pair_seen(g, prior, e));
                }
            }
        }
    }
}

fn is_contradiction(q: &GraphQuery, x: &Edge) -> (b: bool)
    requires
        q.wf(),
    ensures
        b == contradicts(q.graph@, x@),
{
    x.edge_type == EdgeType::Contradicts && x.from_type == NodeType::Requirement && x.to_type == NodeType::Requirement
        && contains_id(q.requirement_ids.as_slice(), x.from_id.as_str()) && contains_id(
        q.requirement_ids.as_slice(),
        x.to_id.as_str(),
    )
}

fn seen_before(q: &GraphQuery, end: usize, x: &Edge) -> (b: bool)
    requires
        q.wf(),
        end <= q.scoped@.len(),
    ensures
        b == pair_seen(q.graph@, scoped_edges(q.graph@).subrange(0, end as int), x@),
{
    let ghost es = scoped_edges(q.graph@);
    let ghost prior = es.subrange(0, end as int);
    let mut j: usize = 0;
    while j < end
        invariant
            q.wf(),
            end <= q.scoped@.len(),
            es == scoped_edges(q.graph@),
            prior == es.subrange(0, end as int),
            0 <= j <= end,
            forall|k: int|
                0 <= k < j ==> !(contradicts(q.graph@, (#[trigger] prior[k]).edge) && same_pair(prior[k].edge, x@)),
        decreases end - j,
    {
        let y = &q.scoped[j].edge;
        assert(prior[j as int] == q.scoped@[j as int]@);
        if is_contradiction(q, y) && ((str_equal(y.from_id.as_str(), x.from_id.as_str()) && str_equal(
            y.to_id.as_str(),
            x.to_id.as_str(),
        )) || (str_equal(y.from_id.as_str(), x.to_id.as_str()) && str_equal(y.to_id.as_str(), x.from_id.as_str()))) {
            return true;
        }
        j = j + 1;
    }
    false
}

fn is_resolved(q: &GraphQuery, left: &str, right: &str) -> (b: bool)
    requires
        q.wf(),
    ensures
        b == contradiction_resolved(q.graph@, left@, right@),
{
    if q.edge_exists(EdgeType::Supersedes, NodeType::Requirement, left, NodeType::Requirement, right) || q.edge_exists(
        EdgeType::Supersedes,
        NodeType::Requirement,
        right,
        NodeType::Requirement,
        left,
    ) {
        return true;
    }
    let left_ids = q.resolving_resolutions(left);
    let right_ids = q.resolving_resolutions(right);
    let ghost lv = ids_view(left_ids@);
    let ghost rv = ids_view(right_ids@);
    let mut k: usize = 0;
    while k < right_ids.len()
        invariant
            0 <= k <= right_ids@.len(),
            lv == ids_view(left_ids@),
            rv == ids_view(right_ids@),
            lv == resolving(q.graph@, left@),
            rv == resolving(q.graph@, right@),
            forall|j: int| 0 <= j < k ==> !lv.contains(#[trigger] rv[j]),
        decreases right_ids@.len() - k,
    {
        assert(rv[k as int] == right_ids@[k as int]@);
        if contains_id(left_ids.as_slice(), right_ids[k].as_str()) {
            assert(lv.contains(rv[k as int]));
            return true;
        }
        k = k + 1;
    }
    false
}

/// Adds each unsettled `contradicts` pair, once.
pub fn add_contradiction_gaps(q: &GraphQuery, gaps: &mut Vec<GapItem>)
    requires
        q.wf(),
    ensures
        gaps_view(final(gaps)@) == gaps_view(old(gaps)@) + contradiction_gaps(q.graph@, scoped_edges(q.graph@)),
{
    let ghost g = q.graph@;
    let ghost es = scoped_edges(g);
    let ghost start = gaps_view(gaps@);
    let mut i: usize = 0;
    while i < q.scoped.len()
        invariant
            q.wf(),
            g == q.graph@,
            es == scoped_edges(g),
            0 <= i <= es.len(),
            gaps_view(gaps@) == start + contradiction_gaps(g, es.subrange(0, i as int)),
        decreases es.len() - i,
    {
        let e: &ScopedEdge = &q.scoped[i];
        proof {
            assert(es[i as int] == e@);
            let p = es.subrange(0, i + 1);
            assert(p.drop_last() =~= es.subrange(0, i as int));
            assert(p.last() == e@);
        }
        let ghost base = gaps_view(gaps@);
        let x = &e.edge;
        if is_contradiction(q, x) && !seen_before(q, i, x) && !is_resolved(q, x.from_id.as_str(), x.to_id.as_str()) {
            push_gap(
                gaps,
                GapItem::new(
                    GapKind::UnresolvedContradictsPair,
                    NodeType::Requirement,
                    x.from_id.as_str(),
                    "unresolved `contradicts` pair".to_owned(),
                ).with_related(NodeType::Requirement, x.to_id.as_str()),
            );
        }
        assert(gaps_view(gaps@) =~= start + contradiction_gaps(g, es.subrange(0, i + 1)));
        i = i + 1;
    }
    assert(es.subrange(0, es.len() as int) =~= es);
}

} // verus!
