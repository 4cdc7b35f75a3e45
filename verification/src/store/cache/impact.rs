//! Impact of a change: the records reachable from an origin, downstream and
//! upstream, within a number of hops.
use vstd::prelude::*;
use vstd::string::StringExecFns;
use crate::text::str_equal;
use super::graph::{copy_edge, edges_view, Edge, EdgeType, EdgeView, NodeType};
use super::gaps::model::{ScopedEdge, ScopedEdgeView};

verus! {

/// The way an impact walk follows edges.
#[derive(Clone, Copy, Debug, PartialEq, Eq, Structural)]
pub enum ImpactDirection {
    Upstream,
    Downstream,
}

/// How far an impact walk goes and which edges it follows.
#[derive(Clone, Copy, Debug, PartialEq, Eq, Structural)]
pub struct ImpactOptions {
    pub max_hops: u32,
    pub follow_indirect: bool,
}

/// A record reached by an impact walk.
#[derive(Clone, Debug, PartialEq, Eq)]
pub struct ImpactNode {
    pub node_type: NodeType,
    pub id: String,
    pub hop_distance: u32,
    pub direction: ImpactDirection,
}

/// Everything an impact walk reached from its origin.
#[derive(Clone, Debug, PartialEq, Eq)]
pub struct ImpactView {
    pub origin_type: NodeType,
    pub origin_id: String,
    pub nodes: Vec<ImpactNode>,
    pub truncated: bool,
}

/// The key a direction sorts by.
pub open spec fn direction_name(direction: ImpactDirection) -> Seq<char> {
    match direction {
        ImpactDirection::Upstream => "upstream"@,
        ImpactDirection::Downstream => "downstream"@,
    }
}

/// The key a direction sorts by.
pub fn direction_key(direction: ImpactDirection) -> (s: &'static str)
    ensures
        s@ == direction_name(direction),
{
    match direction {
        ImpactDirection::Upstream => "upstream",
        ImpactDirection::Downstream => "downstream",
    }
}

// ---------------------------------------------------------------------------
// Walking the graph.

/// The edge kinds followed only when indirect links are asked for.
pub open spec fn indirect(t: EdgeType) -> bool {
    t == EdgeType::DependsOn || t == EdgeType::RefinesInto || t == EdgeType::Contradicts
        || t == EdgeType::Supersedes || t == EdgeType::Spawns
}

pub open spec fn followed(e: EdgeView, follow_indirect: bool) -> bool {
    follow_indirect || !indirect(e.edge_type)
}

/// The edge leaves the node in the walk's direction.
pub open spec fn touches(e: EdgeView, direction: ImpactDirection, n: (NodeType, Seq<char>)) -> bool {
    match direction {
        ImpactDirection::Downstream => e.from_type == n.0 && e.from_id == n.1,
        ImpactDirection::Upstream => e.to_type == n.0 && e.to_id == n.1,
    }
}

/// The node at the other end of the edge in the walk's direction.
pub open spec fn across(e: EdgeView, direction: ImpactDirection) -> (NodeType, Seq<char>) {
    match direction {
        ImpactDirection::Downstream => (e.to_type, e.to_id),
        ImpactDirection::Upstream => (e.from_type, e.from_id),
    }
}

/// A followed edge leads from `a` to `b`.
pub open spec fn step(
    edges: Seq<EdgeView>,
    follow_indirect: bool,
    direction: ImpactDirection,
    a: (NodeType, Seq<char>),
    b: (NodeType, Seq<char>),
) -> bool {
    exists|i: int|
        0 <= i < edges.len() && followed(#[trigger] edges[i], follow_indirect) && touches(edges[i], direction, a)
            && across(edges[i], direction) == b
}

/// The nodes one step away from some node of `from`.
pub open spec fn successors(
    edges: Seq<EdgeView>,
    follow_indirect: bool,
    direction: ImpactDirection,
    from: Set<(NodeType, Seq<char>)>,
) -> Set<(NodeType, Seq<char>)> {
    Set::new(|b: (NodeType, Seq<char>)| exists|a: (NodeType, Seq<char>)| from.contains(a) && step(edges, follow_indirect, direction, a, b))
}

/// After `k` steps from `origin`: the nodes reached so far, and the nodes
/// first reached at the `k`-th step.
pub open spec fn layers(
    edges: Seq<EdgeView>,
    follow_indirect: bool,
    direction: ImpactDirection,
    origin: (NodeType, Seq<char>),
    k: nat,
) -> (Set<(NodeType, Seq<char>)>, Set<(NodeType, Seq<char>)>)
    decreases k,
{
    if k == 0 {
        (set![origin], set![origin])
    } else {
        let (seen, level) = layers(edges, follow_indirect, direction, origin, (k - 1) as nat);
        let next = successors(edges, follow_indirect, direction, level).difference(seen);
        (seen.union(next), next)
    }
}

/// A reached record as plain values: kind, id, hop distance, direction.
pub open spec fn entry_view(n: ImpactNode) -> (NodeType, Seq<char>, int, ImpactDirection) {
    (n.node_type, n.id@, n.hop_distance as int, n.direction)
}

/// The records a walk lists: every node first reached at step `k`, for
/// `1 <= k <= max_hops`, in either direction.
pub open spec fn impact_entry(
    edges: Seq<EdgeView>,
    options: ImpactOptions,
    origin: (NodeType, Seq<char>),
    e: (NodeType, Seq<char>, int, ImpactDirection),
) -> bool {
    &&& 1 <= e.2 <= options.max_hops
    &&& layers(edges, options.follow_indirect, e.3, origin, e.2 as nat).1.contains((e.0, e.1))
}

/// The walk in one direction stopped at its hop limit with edges left to
/// follow: some node first reached at the last allowed step has a followed
/// edge onward.
pub open spec fn truncated_in(
    edges: Seq<EdgeView>,
    options: ImpactOptions,
    direction: ImpactDirection,
    origin: (NodeType, Seq<char>),
) -> bool {
    exists|n: (NodeType, Seq<char>), i: int|
        #![trigger layers(edges, options.follow_indirect, direction, origin, options.max_hops as nat).1.contains(n), edges[i]]
        layers(edges, options.follow_indirect, direction, origin, options.max_hops as nat).1.contains(n)
            && 0 <= i < edges.len() && followed(edges[i], options.follow_indirect) && touches(edges[i], direction, n)
}

// ---------------------------------------------------------------------------
// The order of the listing: kind name, id, then direction name.

/// The alphabetical place of a kind's name.
pub open spec fn type_rank(t: NodeType) -> int {
    match t {
        NodeType::Question => 0,
        NodeType::Requirement => 1,
        NodeType::Resolution => 2,
        NodeType::Rule => 3,
        NodeType::Source => 4,
        NodeType::Topic => 5,
    }
}

pub open spec fn direction_rank(d: ImpactDirection) -> int {
    match d {
        ImpactDirection::Downstream => 0,
        ImpactDirection::Upstream => 1,
    }
}

/// Lexicographic order of texts, character by character.
pub open spec fn chars_less(a: Seq<char>, b: Seq<char>) -> bool
    decreases a.len(),
{
    if a.len() == 0 {
        b.len() > 0
    } else if b.len() == 0 {
        false
    } else if a[0] != b[0] {
        a[0] < b[0]
    } else {
        chars_less(a.drop_first(), b.drop_first())
    }
}

pub proof fn lemma_chars_less_irreflexive(a: Seq<char>)
    ensures
        !chars_less(a, a),
    decreases a.len(),
{
    if a.len() > 0 {
        lemma_chars_less_irreflexive(a.drop_first());
    }
}

pub proof fn lemma_chars_less_transitive(a: Seq<char>, b: Seq<char>, c: Seq<char>)
    requires
        chars_less(a, b),
        chars_less(b, c),
    ensures
        chars_less(a, c),
    decreases a.len(),
{
    if a.len() > 0 && b.len() > 0 && c.len() > 0 && a[0] == b[0] && b[0] == c[0] {
        lemma_chars_less_transitive(a.drop_first(), b.drop_first(), c.drop_first());
    }
}

pub proof fn lemma_chars_less_total(a: Seq<char>, b: Seq<char>)
    ensures
        a == b || chars_less(a, b) || chars_less(b, a),
    decreases a.len(),
{
    if a.len() > 0 && b.len() > 0 && a[0] == b[0] {
        lemma_chars_less_total(a.drop_first(), b.drop_first());
        if a.drop_first() == b.drop_first() {
            assert(a =~= seq![a[0]] + a.drop_first());
            assert(b =~= seq![b[0]] + b.drop_first());
        }
    } else if a.len() == 0 && b.len() == 0 {
        assert(a =~= b);
    }
}

/// Listing order: kind name, then id, then direction name.
pub open spec fn key_less(x: (NodeType, Seq<char>, int, ImpactDirection), y: (NodeType, Seq<char>, int, ImpactDirection)) -> bool {
    type_rank(x.0) < type_rank(y.0) || (type_rank(x.0) == type_rank(y.0) && (chars_less(x.1, y.1) || (x.1
        == y.1 && direction_rank(x.3) < direction_rank(y.3))))
}

/// Two entries with the same kind, id and direction.
pub open spec fn same_key(x: (NodeType, Seq<char>, int, ImpactDirection), y: (NodeType, Seq<char>, int, ImpactDirection)) -> bool {
    x.0 == y.0 && x.1 == y.1 && x.3 == y.3
}

pub proof fn lemma_key_order(
    x: (NodeType, Seq<char>, int, ImpactDirection),
    y: (NodeType, Seq<char>, int, ImpactDirection),
    z: (NodeType, Seq<char>, int, ImpactDirection),
)
    ensures
        !key_less(x, x),
        key_less(x, y) && key_less(y, z) ==> key_less(x, z),
        same_key(x, y) || key_less(x, y) || key_less(y, x),
        key_less(x, y) ==> !key_less(y, x) && !same_key(x, y),
{
    lemma_chars_less_irreflexive(x.1);
    lemma_chars_less_total(x.1, y.1);
    if chars_less(x.1, y.1) && chars_less(y.1, z.1) {
        lemma_chars_less_transitive(x.1, y.1, z.1);
    }
    if chars_less(x.1, y.1) && chars_less(y.1, x.1) {
        lemma_chars_less_transitive(x.1, y.1, x.1);
    }
    assert(type_rank(x.0) == type_rank(y.0) ==> x.0 == y.0);
    assert(direction_rank(x.3) == direction_rank(y.3) ==> x.3 == y.3);
}

/// Every entry comes before every later one.
pub open spec fn sorted_entries(s: Seq<(NodeType, Seq<char>, int, ImpactDirection)>) -> bool {
    forall|i: int, j: int| 0 <= i < j < s.len() ==> key_less(#[trigger] s[i], #[trigger] s[j])
}

pub open spec fn entries_view(v: Seq<ImpactNode>) -> Seq<(NodeType, Seq<char>, int, ImpactDirection)> {
    v.map_values(|n: ImpactNode| entry_view(n))
}

fn type_rank_of(t: NodeType) -> (r: u8)
    ensures
        r == type_rank(t),
{
    match t {
        NodeType::Question => 0,
        NodeType::Requirement => 1,
        NodeType::Resolution => 2,
        NodeType::Rule => 3,
        NodeType::Source => 4,
        NodeType::Topic => 5,
    }
}

/// Whether `a` comes before `b` in lexicographic order.
pub fn chars_less_of(a: &[char], b: &[char]) -> (r: bool)
    ensures
        r == chars_less(a@, b@),
{
    let mut i: usize = 0;
    assert(a@.subrange(0, a@.len() as int) =~= a@);
    assert(b@.subrange(0, b@.len() as int) =~= b@);
    while i < a.len() && i < b.len() && a[i] == b[i]
        invariant
            0 <= i <= a@.len(),
            i <= b@.len(),
            chars_less(a@, b@) == chars_less(a@.subrange(i as int, a@.len() as int), b@.subrange(i as int, b@.len() as int)),
        decreases a@.len() - i,
    {
        proof {
            let sa = a@.subrange(i as int, a@.len() as int);
            let sb = b@.subrange(i as int, b@.len() as int);
            assert(sa.drop_first() =~= a@.subrange(i + 1, a@.len() as int));
            assert(sb.drop_first() =~= b@.subrange(i + 1, b@.len() as int));
        }
        i = i + 1;
    }
    if i == a.len() {
        i < b.len()
    } else if i == b.len() {
        false
    } else {
        a[i] < b[i]
    }
}

fn key_less_exec(x: &ImpactNode, y: &ImpactNode) -> (r: bool)
    ensures
        r == key_less(entry_view(*x), entry_view(*y)),
{
    let rx = type_rank_of(x.node_type);
    let ry = type_rank_of(y.node_type);
    if rx != ry {
        return rx < ry;
    }
    let (xc, _) = crate::text::decode(x.id.as_str());
    let (yc, _) = crate::text::decode(y.id.as_str());
    if chars_less_of(xc.as_slice(), yc.as_slice()) {
        return true;
    }
    if !crate::text::chars_equal(xc.as_slice(), yc.as_slice()) {
        return false;
    }
    x.direction == ImpactDirection::Downstream && y.direction == ImpactDirection::Upstream
}

/// Puts `node` into the sorted listing at its place.
fn insert_sorted(out: &mut Vec<ImpactNode>, node: ImpactNode)
    requires
        sorted_entries(entries_view(old(out)@)),
        forall|i: int| 0 <= i < old(out)@.len() ==> !same_key(#[trigger] entries_view(old(out)@)[i], entry_view(node)),
    ensures
        sorted_entries(entries_view(final(out)@)),
        entries_view(final(out)@).to_set() == entries_view(old(out)@).to_set().insert(entry_view(node)),
{
    let ghost old_entries = entries_view(out@);
    let ghost x = entry_view(node);
    let mut p: usize = 0;
    let mut scanning = true;
    while scanning && p < out.len()
        invariant
            0 <= p <= out@.len(),
            out@ == old(out)@,
            old_entries == entries_view(out@),
            x == entry_view(node),
            forall|i: int| 0 <= i < p ==> key_less(#[trigger] old_entries[i], x),
            !scanning ==> p < out@.len() && !key_less(old_entries[p as int], x),
        decreases out@.len() - p + if scanning { 1int } else { 0int },
    {
        assert(old_entries[p as int] == entry_view(out@[p as int]));
        if key_less_exec(&out[p], &node) {
            p = p + 1;
        } else {
            scanning = false;
        }
    }
    proof {
        if p < old_entries.len() {
            lemma_key_order(old_entries[p as int], x, x);
            lemma_key_order(x, old_entries[p as int], x);
            assert(!same_key(old_entries[p as int], x));
            assert(key_less(x, old_entries[p as int]));
            assert forall|j: int| p <= j < old_entries.len() implies key_less(x, #[trigger] old_entries[j]) by {
                if j > p {
                    lemma_key_order(x, old_entries[p as int], old_entries[j]);
                }
            }
        }
    }
    out.insert(p, node);
    proof {
        let s = entries_view(out@);
        assert(s =~= old_entries.insert(p as int, x));
        assert forall|i: int, j: int| 0 <= i < j < s.len() implies key_less(#[trigger] s[i], #[trigger] s[j]) by {
            if i < p && j < p {
            } else if i < p && j == p {
            } else if i < p && j > p {
                lemma_key_order(old_entries[i], x, old_entries[j - 1]);
            } else if i == p {
            } else {
            }
        }
        assert(s.to_set() =~= old_entries.to_set().insert(x)) by {
            assert forall|e| s.to_set().contains(e) implies old_entries.to_set().insert(x).contains(e) by {
                let k = choose|k: int| 0 <= k < s.len() && s[k] == e;
                if k < p {
                    assert(old_entries[k] == e);
                } else if k > p {
                    assert(old_entries[k - 1] == e);
                }
            }
            assert forall|e| old_entries.to_set().insert(x).contains(e) implies s.to_set().contains(e) by {
                if e == x {
                    assert(s[p as int] == e);
                } else {
                    let k = choose|k: int| 0 <= k < old_entries.len() && old_entries[k] == e;
                    if k < p {
                        assert(s[k] == e);
                    } else {
                        assert(s[k + 1] == e);
                    }
                }
            }
        }
    }
}

// ---------------------------------------------------------------------------
// The walk itself.

pub open spec fn node_view(n: (NodeType, String)) -> (NodeType, Seq<char>) {
    (n.0, n.1@)
}

pub open spec fn nodes_set(v: Seq<(NodeType, String)>) -> Set<(NodeType, Seq<char>)> {
    v.map_values(|n: (NodeType, String)| node_view(n)).to_set()
}

/// The nodes reached from `frontier[0..i]`, and from `frontier[i]` through
/// `edges[0..j]`.
pub open spec fn found(
    edges: Seq<EdgeView>,
    follow_indirect: bool,
    direction: ImpactDirection,
    frontier: Seq<(NodeType, Seq<char>)>,
    i: int,
    j: int,
) -> Set<(NodeType, Seq<char>)> {
    Set::new(
        |b: (NodeType, Seq<char>)|
            exists|ii: int, jj: int|
                0 <= ii < frontier.len() && 0 <= jj < edges.len() && (ii < i || (ii == i && jj < j))
                    && followed(#[trigger] edges[jj], follow_indirect) && touches(edges[jj], direction, #[trigger] frontier[ii])
                    && across(edges[jj], direction) == b,
    )
}

/// The entries of one direction for steps `1..=hop`.
pub open spec fn direction_entries(
    edges: Seq<EdgeView>,
    options: ImpactOptions,
    direction: ImpactDirection,
    origin: (NodeType, Seq<char>),
    hop: int,
) -> Set<(NodeType, Seq<char>, int, ImpactDirection)> {
    Set::new(
        |e: (NodeType, Seq<char>, int, ImpactDirection)|
            e.3 == direction && 1 <= e.2 <= hop && layers(edges, options.follow_indirect, direction, origin, e.2 as nat).1.contains((e.0, e.1)),
    )
}

pub proof fn lemma_layers_grow(
    edges: Seq<EdgeView>,
    follow_indirect: bool,
    direction: ImpactDirection,
    origin: (NodeType, Seq<char>),
    k: nat,
    hop: nat,
)
    requires
        k <= hop,
    ensures
        layers(edges, follow_indirect, direction, origin, k).1.subset_of(layers(edges, follow_indirect, direction, origin, hop).0),
        layers(edges, follow_indirect, direction, origin, k).0.subset_of(layers(edges, follow_indirect, direction, origin, hop).0),
    decreases hop,
{
    if hop > k {
        lemma_layers_grow(edges, follow_indirect, direction, origin, k, (hop - 1) as nat);
    }
}

pub proof fn lemma_empty_level_stays_empty(
    edges: Seq<EdgeView>,
    follow_indirect: bool,
    direction: ImpactDirection,
    origin: (NodeType, Seq<char>),
    k: nat,
    m: nat,
)
    requires
        k <= m,
        layers(edges, follow_indirect, direction, origin, k).1 =~= Set::<(NodeType, Seq<char>)>::empty(),
    ensures
        layers(edges, follow_indirect, direction, origin, m).1 =~= Set::<(NodeType, Seq<char>)>::empty(),
    decreases m,
{
    if m > k {
        lemma_empty_level_stays_empty(edges, follow_indirect, direction, origin, k, (m - 1) as nat);
        let prev = layers(edges, follow_indirect, direction, origin, (m - 1) as nat);
        assert(successors(edges, follow_indirect, direction, prev.1) =~= Set::<(NodeType, Seq<char>)>::empty());
    }
}

fn is_followed(e: &Edge, follow_indirect: bool) -> (r: bool)
    ensures
        r == followed(e@, follow_indirect),
{
    follow_indirect || !(e.edge_type == EdgeType::DependsOn || e.edge_type == EdgeType::RefinesInto
        || e.edge_type == EdgeType::Contradicts || e.edge_type == EdgeType::Supersedes
        || e.edge_type == EdgeType::Spawns)
}

fn edge_touches(e: &Edge, direction: ImpactDirection, n: &(NodeType, String)) -> (r: bool)
    ensures
        r == touches(e@, direction, node_view(*n)),
{
    match direction {
        ImpactDirection::Downstream => e.from_type == n.0 && str_equal(e.from_id.as_str(), n.1.as_str()),
        ImpactDirection::Upstream => e.to_type == n.0 && str_equal(e.to_id.as_str(), n.1.as_str()),
    }
}

fn across_exec(e: &Edge, direction: ImpactDirection) -> (r: (NodeType, String))
    ensures
        node_view(r) == across(e@, direction),
{
    match direction {
        ImpactDirection::Downstream => (e.to_type, e.to_id.clone()),
        ImpactDirection::Upstream => (e.from_type, e.from_id.clone()),
    }
}

fn contains_node(v: &Vec<(NodeType, String)>, n: &(NodeType, String)) -> (r: bool)
    ensures
        r == nodes_set(v@).contains(node_view(*n)),
{
    let mut i: usize = 0;
    while i < v.len()
        invariant
            0 <= i <= v@.len(),
            forall|j: int| 0 <= j < i ==> node_view(v@[j]) != node_view(*n),
        decreases v@.len() - i,
    {
        if v[i].0 == n.0 && str_equal(v[i].1.as_str(), n.1.as_str()) {
            assert(v@.map_values(|m: (NodeType, String)| node_view(m))[i as int] == node_view(*n));
            return true;
        }
        i = i + 1;
    }
    proof {
        if nodes_set(v@).contains(node_view(*n)) {
            let views = v@.map_values(|m: (NodeType, String)| node_view(m));
            let j = choose|j: int| 0 <= j < views.len() && views[j] == node_view(*n);
            assert(node_view(v@[j]) == node_view(*n));
        }
    }
    false
}

fn clone_node(n: &(NodeType, String)) -> (r: (NodeType, String))
    ensures
        node_view(r) == node_view(*n),
{
    (n.0, n.1.clone())
}

proof fn lemma_push_node(v: Seq<(NodeType, String)>, n: (NodeType, String))
    ensures
        nodes_set(v.push(n)) == nodes_set(v).insert(node_view(n)),
{
    let a = v.push(n).map_values(|m: (NodeType, String)| node_view(m));
    let b = v.map_values(|m: (NodeType, String)| node_view(m));
    assert(a =~= b.push(node_view(n)));
    assert(a.to_set() =~= b.to_set().insert(node_view(n))) by {
        assert forall|x| a.to_set().contains(x) implies b.to_set().insert(node_view(n)).contains(x) by {
            let k = choose|k: int| 0 <= k < a.len() && a[k] == x;
            if k < b.len() {
                assert(b[k] == x);
            }
        }
        assert forall|x| b.to_set().insert(node_view(n)).contains(x) implies a.to_set().contains(x) by {
            if x == node_view(n) {
                assert(a[b.len() as int] == x);
            } else {
                let k = choose|k: int| 0 <= k < b.len() && b[k] == x;
                assert(a[k] == x);
            }
        }
    }
}

/// The entries for the nodes of `level`, all at step `hop`.
pub open spec fn level_set(
    level: Set<(NodeType, Seq<char>)>,
    hop: int,
    direction: ImpactDirection,
) -> Set<(NodeType, Seq<char>, int, ImpactDirection)> {
    Set::new(|e: (NodeType, Seq<char>, int, ImpactDirection)| e.3 == direction && e.2 == hop && level.contains((e.0, e.1)))
}

/// Every entry of the walk's own direction names a node already seen.
pub open spec fn entries_seen(
    entries: Seq<(NodeType, Seq<char>, int, ImpactDirection)>,
    direction: ImpactDirection,
    seen: Set<(NodeType, Seq<char>)>,
) -> bool {
    forall|k: int| 0 <= k < entries.len() && (#[trigger] entries[k]).3 == direction ==> seen.contains((entries[k].0, entries[k].1))
}

proof fn lemma_found_step(
    edges: Seq<EdgeView>,
    follow_indirect: bool,
    direction: ImpactDirection,
    frontier: Seq<(NodeType, Seq<char>)>,
    i: int,
    j: int,
)
    requires
        0 <= i < frontier.len(),
        0 <= j < edges.len(),
    ensures
        found(edges, follow_indirect, direction, frontier, i, j + 1) == if followed(edges[j], follow_indirect) && touches(
            edges[j],
            direction,
            frontier[i],
        ) {
            found(edges, follow_indirect, direction, frontier, i, j).insert(across(edges[j], direction))
        } else {
            found(edges, follow_indirect, direction, frontier, i, j)
        },
{
    let a = found(edges, follow_indirect, direction, frontier, i, j + 1);
    let b = found(edges, follow_indirect, direction, frontier, i, j);
    let hit = followed(edges[j], follow_indirect) && touches(edges[j], direction, frontier[i]);
    let c = if hit { b.insert(across(edges[j], direction)) } else { b };
    assert forall|x| a.contains(x) implies c.contains(x) by {
        let (ii, jj) = choose|ii: int, jj: int|
            0 <= ii < frontier.len() && 0 <= jj < edges.len() && (ii < i || (ii == i && jj < j + 1))
                && followed(#[trigger] edges[jj], follow_indirect) && touches(edges[jj], direction, #[trigger] frontier[ii])
                && across(edges[jj], direction) == x;
        if !(ii == i && jj == j) {
            assert(b.contains(x));
        }
    }
    assert forall|x| c.contains(x) implies a.contains(x) by {
        if b.contains(x) {
            let (ii, jj) = choose|ii: int, jj: int|
                0 <= ii < frontier.len() && 0 <= jj < edges.len() && (ii < i || (ii == i && jj < j))
                    && followed(#[trigger] edges[jj], follow_indirect) && touches(edges[jj], direction, #[trigger] frontier[ii])
                    && across(edges[jj], direction) == x;
            assert(ii < i || (ii == i && jj < j + 1));
        } else {
            assert(hit && x == across(edges[j], direction));
            assert(followed(edges[j], follow_indirect) && touches(edges[j], direction, frontier[i]));
        }
    }
    assert(a =~= c);
}

proof fn lemma_found_row(
    edges: Seq<EdgeView>,
    follow_indirect: bool,
    direction: ImpactDirection,
    frontier: Seq<(NodeType, Seq<char>)>,
    i: int,
)
    requires
        0 <= i < frontier.len(),
    ensures
        found(edges, follow_indirect, direction, frontier, i + 1, 0) == found(
            edges,
            follow_indirect,
            direction,
            frontier,
            i,
            edges.len() as int,
        ),
{
    let a = found(edges, follow_indirect, direction, frontier, i + 1, 0);
    let b = found(edges, follow_indirect, direction, frontier, i, edges.len() as int);
    assert forall|x| a.contains(x) implies b.contains(x) by {
        let (ii, jj) = choose|ii: int, jj: int|
            0 <= ii < frontier.len() && 0 <= jj < edges.len() && (ii < i + 1 || (ii == i + 1 && jj < 0))
                && followed(#[trigger] edges[jj], follow_indirect) && touches(edges[jj], direction, #[trigger] frontier[ii])
                && across(edges[jj], direction) == x;
        assert(ii < i || (ii == i && jj < edges.len()));
    }
    assert forall|x| b.contains(x) implies a.contains(x) by {
        let (ii, jj) = choose|ii: int, jj: int|
            0 <= ii < frontier.len() && 0 <= jj < edges.len() && (ii < i || (ii == i && jj < edges.len()))
                && followed(#[trigger] edges[jj], follow_indirect) && touches(edges[jj], direction, #[trigger] frontier[ii])
                && across(edges[jj], direction) == x;
        assert(ii < i + 1);
    }
    assert(a =~= b);
}

proof fn lemma_found_all(
    edges: Seq<EdgeView>,
    follow_indirect: bool,
    direction: ImpactDirection,
    frontier: Seq<(NodeType, Seq<char>)>,
)
    ensures
        found(edges, follow_indirect, direction, frontier, frontier.len() as int, 0) == successors(
            edges,
            follow_indirect,
            direction,
            frontier.to_set(),
        ),
{
    let a = found(edges, follow_indirect, direction, frontier, frontier.len() as int, 0);
    let b = successors(edges, follow_indirect, direction, frontier.to_set());
    assert forall|x| a.contains(x) implies b.contains(x) by {
        let (ii, jj) = choose|ii: int, jj: int|
            0 <= ii < frontier.len() && 0 <= jj < edges.len() && (ii < frontier.len() || (ii == frontier.len() && jj < 0))
                && followed(#[trigger] edges[jj], follow_indirect) && touches(edges[jj], direction, #[trigger] frontier[ii])
                && across(edges[jj], direction) == x;
        assert(frontier.to_set().contains(frontier[ii]));
        assert(step(edges, follow_indirect, direction, frontier[ii], x));
    }
    assert forall|x| b.contains(x) implies a.contains(x) by {
        let n = choose|n: (NodeType, Seq<char>)| frontier.to_set().contains(n) && step(edges, follow_indirect, direction, n, x);
        let ii = choose|ii: int| 0 <= ii < frontier.len() && frontier[ii] == n;
        let jj = choose|jj: int|
            0 <= jj < edges.len() && followed(#[trigger] edges[jj], follow_indirect) && touches(edges[jj], direction, n)
                && across(edges[jj], direction) == x;
        assert(0 <= ii < frontier.len() && 0 <= jj < edges.len() && ii < frontier.len() && followed(edges[jj], follow_indirect)
            && touches(edges[jj], direction, frontier[ii]) && across(edges[jj], direction) == x);
    }
    assert(a =~= b);
}

fn expand_level(
    edges: &[Edge],
    follow_indirect: bool,
    direction: ImpactDirection,
    frontier: &Vec<(NodeType, String)>,
    seen: &mut Vec<(NodeType, String)>,
    out: &mut Vec<ImpactNode>,
    hop: u32,
) -> (next: Vec<(NodeType, String)>)
    requires
        hop < u32::MAX,
        sorted_entries(entries_view(old(out)@)),
        entries_seen(entries_view(old(out)@), direction, nodes_set(old(seen)@)),
    ensures
        nodes_set(next@) == successors(edges_view(edges@), follow_indirect, direction, nodes_set(frontier@)).difference(
            nodes_set(old(seen)@),
        ),
        nodes_set(final(seen)@) == nodes_set(old(seen)@).union(nodes_set(next@)),
        entries_view(final(out)@).to_set() == entries_view(old(out)@).to_set().union(
            level_set(nodes_set(next@), hop + 1, direction),
        ),
        sorted_entries(entries_view(final(out)@)),
        entries_seen(entries_view(final(out)@), direction, nodes_set(final(seen)@)),
{
    let ghost ev = edges_view(edges@);
    let ghost fr = frontier@.map_values(|n: (NodeType, String)| node_view(n));
    let ghost base = nodes_set(seen@);
    let ghost old_set = entries_view(out@).to_set();
    let mut next: Vec<(NodeType, String)> = Vec::new();
    proof {
        assert(found(ev, follow_indirect, direction, fr, 0, 0) =~= Set::<(NodeType, Seq<char>)>::empty());
        assert(nodes_set(next@) =~= Set::<(NodeType, Seq<char>)>::empty());
        assert(nodes_set(seen@) =~= base.union(nodes_set(next@)));
        assert(entries_view(out@).to_set() =~= old_set.union(level_set(nodes_set(next@), hop + 1, direction)));
    }
    let mut i: usize = 0;
    while i < frontier.len()
        invariant
            0 <= i <= frontier@.len(),
            hop < u32::MAX,
            ev == edges_view(edges@),
            fr == frontier@.map_values(|n: (NodeType, String)| node_view(n)),
            nodes_set(next@) == found(ev, follow_indirect, direction, fr, i as int, 0).difference(base),
            nodes_set(seen@) == base.union(nodes_set(next@)),
            entries_view(out@).to_set() == old_set.union(level_set(nodes_set(next@), hop + 1, direction)),
            sorted_entries(entries_view(out@)),
            entries_seen(entries_view(out@), direction, nodes_set(seen@)),
        decreases frontier@.len() - i,
    {
        let mut j: usize = 0;
        while j < edges.len()
            invariant
                0 <= i < frontier@.len(),
                0 <= j <= edges@.len(),
                hop < u32::MAX,
                ev == edges_view(edges@),
                fr == frontier@.map_values(|n: (NodeType, String)| node_view(n)),
                nodes_set(next@) == found(ev, follow_indirect, direction, fr, i as int, j as int).difference(base),
                nodes_set(seen@) == base.union(nodes_set(next@)),
                entries_view(out@).to_set() == old_set.union(level_set(nodes_set(next@), hop + 1, direction)),
                sorted_entries(entries_view(out@)),
                entries_seen(entries_view(out@), direction, nodes_set(seen@)),
            decreases edges@.len() - j,
        {
            proof {
                lemma_found_step(ev, follow_indirect, direction, fr, i as int, j as int);
                assert(ev[j as int] == edges@[j as int]@);
                assert(fr[i as int] == node_view(frontier@[i as int]));
            }
            if is_followed(&edges[j], follow_indirect) && edge_touches(&edges[j], direction, &frontier[i]) {
                let nb = across_exec(&edges[j], direction);
                if !contains_node(seen, &nb) {
                    let ghost before_next = next@;
                    let ghost before_seen = seen@;
                    let ghost before_out = entries_view(out@);
                    seen.push(clone_node(&nb));
                    next.push(clone_node(&nb));
                    let entry = ImpactNode { node_type: nb.0, id: nb.1, hop_distance: hop + 1, direction };
                    proof {
                        lemma_push_node(before_seen, seen@.last());
                        lemma_push_node(before_next, next@.last());
                        assert forall|k: int| 0 <= k < before_out.len() implies !same_key(#[trigger] before_out[k], entry_view(entry)) by {
                            if before_out[k].3 == direction {
                                assert(nodes_set(before_seen).contains((before_out[k].0, before_out[k].1)));
                            }
                        }
                    }
                    insert_sorted(out, entry);
                    proof {
                        let nv = node_view(nb);
                        assert(nodes_set(next@) == nodes_set(before_next).insert(nv));
                        assert(nodes_set(seen@) == nodes_set(before_seen).insert(nv));
                        assert(nodes_set(next@) =~= found(ev, follow_indirect, direction, fr, i as int, j + 1).difference(base));
                        assert(nodes_set(seen@) =~= base.union(nodes_set(next@)));
                        assert(entries_view(out@).to_set() =~= old_set.union(level_set(nodes_set(next@), hop + 1, direction)));
                        let es = entries_view(out@);
                        assert forall|k: int| 0 <= k < es.len() && (#[trigger] es[k]).3 == direction implies nodes_set(seen@).contains((es[k].0, es[k].1)) by {
                            assert(es.to_set().contains(es[k]));
                            if es[k] != entry_view(entry) {
                                assert(before_out.to_set().contains(es[k]));
                                let m = choose|m: int| 0 <= m < before_out.len() && before_out[m] == es[k];
                                assert(nodes_set(before_seen).contains((before_out[m].0, before_out[m].1)));
                            }
                        }
                    }
                } else {
                    proof {
                        assert(nodes_set(next@) =~= found(ev, follow_indirect, direction, fr, i as int, j + 1).difference(base));
                    }
                }
            } else {
                proof {
                    assert(nodes_set(next@) =~= found(ev, follow_indirect, direction, fr, i as int, j + 1).difference(base));
                }
            }
            j = j + 1;
        }
        proof {
            lemma_found_row(ev, follow_indirect, direction, fr, i as int);
        }
        i = i + 1;
    }
    proof {
        lemma_found_all(ev, follow_indirect, direction, fr);
        assert(fr.to_set() == nodes_set(frontier@));
    }
    next
}

fn walk(
    edges: &[Edge],
    options: ImpactOptions,
    direction: ImpactDirection,
    origin: &(NodeType, String),
    out: &mut Vec<ImpactNode>,
) -> (truncated: bool)
    requires
        sorted_entries(entries_view(old(out)@)),
        forall|k: int| 0 <= k < old(out)@.len() ==> (#[trigger] entries_view(old(out)@)[k]).3 != direction,
    ensures
        sorted_entries(entries_view(final(out)@)),
        entries_view(final(out)@).to_set() == entries_view(old(out)@).to_set().union(
            direction_entries(edges_view(edges@), options, direction, node_view(*origin), options.max_hops as int),
        ),
        truncated == truncated_in(edges_view(edges@), options, direction, node_view(*origin)),
{
    let ghost ev = edges_view(edges@);
    let ghost o = node_view(*origin);
    let ghost old_set = entries_view(out@).to_set();
    let fi = options.follow_indirect;
    let mut seen: Vec<(NodeType, String)> = Vec::new();
    seen.push(clone_node(origin));
    let mut frontier: Vec<(NodeType, String)> = Vec::new();
    frontier.push(clone_node(origin));
    let mut hop: u32 = 0;
    proof {
        lemma_push_node(Seq::empty(), seen@[0]);
        lemma_push_node(Seq::empty(), frontier@[0]);
        assert(seen@ =~= Seq::<(NodeType, String)>::empty().push(seen@[0]));
        assert(frontier@ =~= Seq::<(NodeType, String)>::empty().push(frontier@[0]));
        assert(nodes_set(Seq::<(NodeType, String)>::empty()) =~= Set::<(NodeType, Seq<char>)>::empty());
        assert(nodes_set(seen@) =~= set![o]);
        assert(nodes_set(frontier@) =~= set![o]);
        assert(direction_entries(ev, options, direction, o, 0) =~= Set::<(NodeType, Seq<char>, int, ImpactDirection)>::empty());
        assert(entries_view(out@).to_set() =~= old_set.union(direction_entries(ev, options, direction, o, 0)));
    }
    while hop < options.max_hops && frontier.len() > 0
        invariant
            hop <= options.max_hops,
            ev == edges_view(edges@),
            o == node_view(*origin),
            fi == options.follow_indirect,
            nodes_set(seen@) == layers(ev, fi, direction, o, hop as nat).0,
            nodes_set(frontier@) == layers(ev, fi, direction, o, hop as nat).1,
            entries_view(out@).to_set() == old_set.union(direction_entries(ev, options, direction, o, hop as int)),
            sorted_entries(entries_view(out@)),
            entries_seen(entries_view(out@), direction, nodes_set(seen@)),
        decreases options.max_hops - hop,
    {
        let next = expand_level(edges, fi, direction, &frontier, &mut seen, out, hop);
        proof {
            assert(nodes_set(next@) == layers(ev, fi, direction, o, (hop + 1) as nat).1);
            assert(nodes_set(seen@) =~= layers(ev, fi, direction, o, (hop + 1) as nat).0);
            assert(entries_view(out@).to_set() =~= old_set.union(direction_entries(ev, options, direction, o, hop + 1)));
        }
        frontier = next;
        hop = hop + 1;
    }
    proof {
        if hop < options.max_hops {
            assert(frontier@.len() == 0);
            assert(nodes_set(frontier@) =~= Set::<(NodeType, Seq<char>)>::empty());
            assert forall|k: nat| hop <= k <= options.max_hops implies layers(ev, fi, direction, o, k).1 =~= Set::<(NodeType, Seq<char>)>::empty() by {
                lemma_empty_level_stays_empty(ev, fi, direction, o, hop as nat, k);
            }
            assert(direction_entries(ev, options, direction, o, hop as int) =~= direction_entries(
                ev,
                options,
                direction,
                o,
                options.max_hops as int,
            )) by {
                assert forall|e| direction_entries(ev, options, direction, o, options.max_hops as int).contains(e) implies e.2 <= hop by {
                    if e.2 > hop {
                        assert(layers(ev, fi, direction, o, e.2 as nat).1 =~= Set::<(NodeType, Seq<char>)>::empty());
                    }
                }
            }
        }
    }
    let mut truncated = false;
    let mut i: usize = 0;
    while i < frontier.len()
        invariant
            0 <= i <= frontier@.len(),
            ev == edges_view(edges@),
            o == node_view(*origin),
            fi == options.follow_indirect,
            hop < options.max_hops ==> frontier@.len() == 0,
            hop <= options.max_hops,
            nodes_set(frontier@) == layers(ev, fi, direction, o, hop as nat).1,
            truncated ==> truncated_in(ev, options, direction, o),
            !truncated ==> forall|ii: int, jj: int| 0 <= ii < i && 0 <= jj < ev.len() ==> !(followed(#[trigger] ev[jj], fi) && touches(ev[jj], direction, node_view(#[trigger] frontier@[ii]))),
        decreases frontier@.len() - i,
    {
        let mut j: usize = 0;
        while j < edges.len()
            invariant
                0 <= i < frontier@.len(),
                0 <= j <= edges@.len(),
                ev == edges_view(edges@),
                o == node_view(*origin),
                fi == options.follow_indirect,
                hop == options.max_hops,
                nodes_set(frontier@) == layers(ev, fi, direction, o, hop as nat).1,
                truncated ==> truncated_in(ev, options, direction, o),
                !truncated ==> forall|ii: int, jj: int| (0 <= ii < i && 0 <= jj < ev.len()) || (ii == i && 0 <= jj < j) ==> !(followed(#[trigger] ev[jj], fi) && touches(ev[jj], direction, node_view(#[trigger] frontier@[ii]))),
            decreases edges@.len() - j,
        {
            assert(ev[j as int] == edges@[j as int]@);
            if is_followed(&edges[j], fi) && edge_touches(&edges[j], direction, &frontier[i]) {
                proof {
                    let n = node_view(frontier@[i as int]);
                    assert(frontier@.map_values(|m: (NodeType, String)| node_view(m))[i as int] == n);
                    assert(nodes_set(frontier@).contains(n));
                    assert(layers(ev, fi, direction, o, options.max_hops as nat).1.contains(n) && 0 <= j < ev.len()
                        && followed(ev[j as int], fi) && touches(ev[j as int], direction, n));
                }
                truncated = true;
            }
            j = j + 1;
        }
        i = i + 1;
    }
    proof {
        if !truncated && truncated_in(ev, options, direction, o) {
            let (n, k) = choose|n: (NodeType, Seq<char>), k: int|
                #![trigger layers(ev, options.follow_indirect, direction, o, options.max_hops as nat).1.contains(n), ev[k]]
                layers(ev, options.follow_indirect, direction, o, options.max_hops as nat).1.contains(n) && 0 <= k < ev.len()
                    && followed(ev[k], options.follow_indirect) && touches(ev[k], direction, n);
            if hop < options.max_hops {
                assert(layers(ev, fi, direction, o, options.max_hops as nat).1 =~= Set::<(NodeType, Seq<char>)>::empty());
            } else {
                let views = frontier@.map_values(|m: (NodeType, String)| node_view(m));
                assert(views.to_set().contains(n));
                let ii = choose|ii: int| 0 <= ii < views.len() && views[ii] == n;
                assert(node_view(frontier@[ii]) == n);
            }
        }
    }
    truncated
}

/// The edges of one scope, in order.
pub open spec fn edges_of_scope(scope: Seq<char>, edges: Seq<ScopedEdgeView>) -> Seq<EdgeView>
    decreases edges.len(),
{
    if edges.len() == 0 {
        seq![]
    } else {
        edges_of_scope(scope, edges.drop_last()) + if edges.last().scope_id == scope {
            seq![edges.last().edge]
        } else {
            seq![]
        }
    }
}

fn scope_filter(scope: &str, edges: &[ScopedEdge]) -> (r: Vec<Edge>)
    ensures
        edges_view(r@) == edges_of_scope(scope@, edges@.map_values(|e: ScopedEdge| e@)),
{
    let ghost ev = edges@.map_values(|e: ScopedEdge| e@);
    let mut r: Vec<Edge> = Vec::new();
    let mut i: usize = 0;
    while i < edges.len()
        invariant
            0 <= i <= edges@.len(),
            ev == edges@.map_values(|e: ScopedEdge| e@),
            edges_view(r@) == edges_of_scope(scope@, ev.subrange(0, i as int)),
        decreases edges@.len() - i,
    {
        proof {
            let s = ev.subrange(0, i + 1);
            assert(s.drop_last() =~= ev.subrange(0, i as int));
            assert(s.last() == edges@[i as int]@);
        }
        if str_equal(edges[i].scope_id.as_str(), scope) {
            let ghost before = edges_view(r@);
            r.push(copy_edge(&edges[i].edge));
            assert(edges_view(r@) =~= before.push(edges@[i as int].edge@));
        }
        assert(edges_view(r@) =~= edges_of_scope(scope@, ev.subrange(0, i + 1)));
        i = i + 1;
    }
    assert(ev.subrange(0, edges@.len() as int) =~= ev);
    r
}

/// The impact of a change in one scope: [`impact_in_edges`] over the edges
/// that belong to `scope`.
pub fn analyze_impact(
    scope: &str,
    origin_type: NodeType,
    origin_id: &str,
    edges: &[ScopedEdge],
    options: ImpactOptions,
) -> (view: ImpactView)
    ensures
        view.origin_type == origin_type,
        view.origin_id@ == origin_id@,
        sorted_entries(entries_view(view.nodes@)),
        entries_view(view.nodes@).to_set() == Set::new(
            |e: (NodeType, Seq<char>, int, ImpactDirection)|
                impact_entry(
                    edges_of_scope(scope@, edges@.map_values(|x: ScopedEdge| x@)),
                    options,
                    (origin_type, origin_id@),
                    e,
                ),
        ),
        view.truncated == (truncated_in(
            edges_of_scope(scope@, edges@.map_values(|x: ScopedEdge| x@)),
            options,
            ImpactDirection::Downstream,
            (origin_type, origin_id@),
        ) || truncated_in(
            edges_of_scope(scope@, edges@.map_values(|x: ScopedEdge| x@)),
            options,
            ImpactDirection::Upstream,
            (origin_type, origin_id@),
        )),
{
    let own = scope_filter(scope, edges);
    impact_in_edges(origin_type, origin_id, own.as_slice(), options)
}

/// The records reachable from an origin in the given edges, downstream and
/// upstream, each at the fewest hops it takes, up to `options.max_hops`;
/// indirect edge kinds are followed only when the options ask for it.
/// Listed by kind name, id and direction name; `truncated` when a walk
/// stopped at the hop limit with edges left to follow.
pub fn impact_in_edges(origin_type: NodeType, origin_id: &str, edges: &[Edge], options: ImpactOptions) -> (view: ImpactView)
    ensures
        view.origin_type == origin_type,
        view.origin_id@ == origin_id@,
        sorted_entries(entries_view(view.nodes@)),
        entries_view(view.nodes@).to_set() == Set::new(
            |e: (NodeType, Seq<char>, int, ImpactDirection)| impact_entry(edges_view(edges@), options, (origin_type, origin_id@), e),
        ),
        view.truncated == (truncated_in(edges_view(edges@), options, ImpactDirection::Downstream, (origin_type, origin_id@))
            || truncated_in(edges_view(edges@), options, ImpactDirection::Upstream, (origin_type, origin_id@))),
{
    let origin: (NodeType, String) = (origin_type, String::from_str(origin_id));
    let mut out: Vec<ImpactNode> = Vec::new();
    proof {
        assert(entries_view(out@) =~= Seq::<(NodeType, Seq<char>, int, ImpactDirection)>::empty());
    }
    let down = walk(edges, options, ImpactDirection::Downstream, &origin, &mut out);
    proof {
        let es = entries_view(out@);
        assert forall|k: int| 0 <= k < out@.len() implies (#[trigger] entries_view(out@)[k]).3 != ImpactDirection::Upstream by {
            assert(es.to_set().contains(es[k]));
        }
    }
    let ghost after_down = entries_view(out@).to_set();
    let up = walk(edges, options, ImpactDirection::Upstream, &origin, &mut out);
    proof {
        let ev = edges_view(edges@);
        let o = (origin_type, origin_id@);
        assert(entries_view(Seq::<ImpactNode>::empty()).to_set() =~= Set::<(NodeType, Seq<char>, int, ImpactDirection)>::empty());
        assert(entries_view(out@).to_set() =~= Set::new(
            |e: (NodeType, Seq<char>, int, ImpactDirection)| impact_entry(ev, options, o, e),
        ));
    }
    ImpactView { origin_type, origin_id: String::from_str(origin_id), nodes: out, truncated: down || up }
}


// ---------------------------------------------------------------------------
// Which edges a walk can see.

/// Every edge of `e1` that a walk follows also stands in `e2`.
pub open spec fn followed_within(e1: Seq<EdgeView>, e2: Seq<EdgeView>, follow_indirect: bool) -> bool {
    forall|i: int|
        0 <= i < e1.len() && followed(#[trigger] e1[i], follow_indirect) ==> exists|j: int|
            0 <= j < e2.len() && #[trigger] e2[j] == e1[i]
}

proof fn lemma_step_within(
    e1: Seq<EdgeView>,
    e2: Seq<EdgeView>,
    follow_indirect: bool,
    direction: ImpactDirection,
    a: (NodeType, Seq<char>),
    b: (NodeType, Seq<char>),
)
    requires
        followed_within(e1, e2, follow_indirect),
        step(e1, follow_indirect, direction, a, b),
    ensures
        step(e2, follow_indirect, direction, a, b),
{
    let i = choose|i: int|
        0 <= i < e1.len() && followed(#[trigger] e1[i], follow_indirect) && touches(e1[i], direction, a) && across(
            e1[i],
            direction,
        ) == b;
    let j = choose|j: int| 0 <= j < e2.len() && #[trigger] e2[j] == e1[i];
    assert(followed(e2[j], follow_indirect));
}

/// Walks over two edge lists with the same followed edges reach the same
/// nodes at every step.
proof fn lemma_layers_agree(
    e1: Seq<EdgeView>,
    e2: Seq<EdgeView>,
    follow_indirect: bool,
    direction: ImpactDirection,
    origin: (NodeType, Seq<char>),
    k: nat,
)
    requires
        followed_within(e1, e2, follow_indirect),
        followed_within(e2, e1, follow_indirect),
    ensures
        layers(e1, follow_indirect, direction, origin, k) == layers(e2, follow_indirect, direction, origin, k),
    decreases k,
{
    if k > 0 {
        lemma_layers_agree(e1, e2, follow_indirect, direction, origin, (k - 1) as nat);
        let level = layers(e1, follow_indirect, direction, origin, (k - 1) as nat).1;
        assert forall|b: (NodeType, Seq<char>)|
            #[trigger] successors(e1, follow_indirect, direction, level).contains(b) implies successors(
            e2,
            follow_indirect,
            direction,
            level,
        ).contains(b) by {
            let a = choose|a: (NodeType, Seq<char>)| level.contains(a) && step(e1, follow_indirect, direction, a, b);
            lemma_step_within(e1, e2, follow_indirect, direction, a, b);
        }
        assert forall|b: (NodeType, Seq<char>)|
            #[trigger] successors(e2, follow_indirect, direction, level).contains(b) implies successors(
            e1,
            follow_indirect,
            direction,
            level,
        ).contains(b) by {
            let a = choose|a: (NodeType, Seq<char>)| level.contains(a) && step(e2, follow_indirect, direction, a, b);
            lemma_step_within(e2, e1, follow_indirect, direction, a, b);
        }
        assert(successors(e1, follow_indirect, direction, level) =~= successors(e2, follow_indirect, direction, level));
    }
}

proof fn lemma_truncated_within(
    e1: Seq<EdgeView>,
    e2: Seq<EdgeView>,
    options: ImpactOptions,
    direction: ImpactDirection,
    origin: (NodeType, Seq<char>),
)
    requires
        followed_within(e1, e2, options.follow_indirect),
        followed_within(e2, e1, options.follow_indirect),
        truncated_in(e1, options, direction, origin),
    ensures
        truncated_in(e2, options, direction, origin),
{
    lemma_layers_agree(e1, e2, options.follow_indirect, direction, origin, options.max_hops as nat);
    let (n, i) = choose|n: (NodeType, Seq<char>), i: int|
        layers(e1, options.follow_indirect, direction, origin, options.max_hops as nat).1.contains(n) && 0 <= i
            < e1.len() && followed(e1[i], options.follow_indirect) && touches(e1[i], direction, n);
    let j = choose|j: int| 0 <= j < e2.len() && #[trigger] e2[j] == e1[i];
    assert(layers(e2, options.follow_indirect, direction, origin, options.max_hops as nat).1.contains(n));
    assert(followed(e2[j], options.follow_indirect) && touches(e2[j], direction, n));
}

/// Putting an edge a walk does not follow among the edges leaves the
/// followed edges as they were.
proof fn lemma_insert_unfollowed(before: Seq<EdgeView>, after: Seq<EdgeView>, x: EdgeView, fi: bool)
    requires
        !followed(x, fi),
    ensures
        followed_within(before + after, before + seq![x] + after, fi),
        followed_within(before + seq![x] + after, before + after, fi),
{
    let e1 = before + after;
    let e2 = before + seq![x] + after;
    assert forall|i: int| 0 <= i < e1.len() && followed(#[trigger] e1[i], fi) implies exists|j: int|
        0 <= j < e2.len() && #[trigger] e2[j] == e1[i] by {
        if i < before.len() {
            assert(e2[i] == e1[i]);
        } else {
            assert(e2[i + 1] == e1[i]);
        }
    }
    assert forall|j: int| 0 <= j < e2.len() && followed(#[trigger] e2[j], fi) implies exists|i: int|
        0 <= i < e1.len() && #[trigger] e1[i] == e2[j] by {
        if j < before.len() {
            assert(e1[j] == e2[j]);
        } else if j == before.len() {
            assert(e2[j] == x);
        } else {
            assert(e1[j - 1] == e2[j]);
        }
    }
}

/// Unless indirect links are asked for, a `depends_on`, `refines_into`,
/// `contradicts`, `supersedes` or `spawns` edge changes nothing in an
/// impact walk: adding one anywhere among the edges leaves both the records
/// listed and the truncation flag as they were.
pub proof fn law_indirect_edges_are_not_followed_by_default(
    before: Seq<EdgeView>,
    after: Seq<EdgeView>,
    x: EdgeView,
    options: ImpactOptions,
    origin: (NodeType, Seq<char>),
    e: (NodeType, Seq<char>, int, ImpactDirection),
)
    requires
        !options.follow_indirect,
        x.edge_type == EdgeType::DependsOn || x.edge_type == EdgeType::RefinesInto || x.edge_type
            == EdgeType::Contradicts || x.edge_type == EdgeType::Supersedes || x.edge_type == EdgeType::Spawns,
    ensures
        impact_entry(before + after, options, origin, e) == impact_entry(before + seq![x] + after, options, origin, e),
        truncated_in(before + after, options, ImpactDirection::Downstream, origin) == truncated_in(
            before + seq![x] + after,
            options,
            ImpactDirection::Downstream,
            origin,
        ),
        truncated_in(before + after, options, ImpactDirection::Upstream, origin) == truncated_in(
            before + seq![x] + after,
            options,
            ImpactDirection::Upstream,
            origin,
        ),
{
    let e1 = before + after;
    let e2 = before + seq![x] + after;
    let fi = options.follow_indirect;
    lemma_insert_unfollowed(before, after, x, fi);
    if 1 <= e.2 <= options.max_hops {
        lemma_layers_agree(e1, e2, fi, e.3, origin, e.2 as nat);
    }
    if truncated_in(e1, options, ImpactDirection::Downstream, origin) {
        lemma_truncated_within(e1, e2, options, ImpactDirection::Downstream, origin);
    }
    if truncated_in(e2, options, ImpactDirection::Downstream, origin) {
        lemma_truncated_within(e2, e1, options, ImpactDirection::Downstream, origin);
    }
    if truncated_in(e1, options, ImpactDirection::Upstream, origin) {
        lemma_truncated_within(e1, e2, options, ImpactDirection::Upstream, origin);
    }
    if truncated_in(e2, options, ImpactDirection::Upstream, origin) {
        lemma_truncated_within(e2, e1, options, ImpactDirection::Upstream, origin);
    }
}


/// A `references`, `resolves` or `produces` edge is always followed: when
/// the walk may take a step at all, the record at the far end of such an
/// edge leaving the origin is listed one hop downstream, unless it is the
/// origin itself.
pub proof fn law_direct_edges_are_followed(
    edges: Seq<EdgeView>,
    options: ImpactOptions,
    origin: (NodeType, Seq<char>),
    k: int,
)
    requires
        0 <= k < edges.len(),
        options.max_hops >= 1,
        edges[k].edge_type == EdgeType::References || edges[k].edge_type == EdgeType::Resolves || edges[k].edge_type
            == EdgeType::Produces,
        edges[k].from_type == origin.0,
        edges[k].from_id == origin.1,
        (edges[k].to_type, edges[k].to_id) != origin,
    ensures
        impact_entry(edges, options, origin, (edges[k].to_type, edges[k].to_id, 1, ImpactDirection::Downstream)),
{
    let b = (edges[k].to_type, edges[k].to_id);
    let level0 = layers(edges, options.follow_indirect, ImpactDirection::Downstream, origin, 0);
    assert(level0.1.contains(origin));
    assert(step(edges, options.follow_indirect, ImpactDirection::Downstream, origin, b));
    assert(successors(edges, options.follow_indirect, ImpactDirection::Downstream, level0.1).contains(b));
    assert(!level0.0.contains(b));
}

} // verus!
