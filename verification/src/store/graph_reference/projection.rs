//! The checks a scope's projected graph passes before it is hashed, and the
//! order its records are written in.
use vstd::prelude::*;
use super::{ErrorView, GraphReferenceError};
use crate::store::cache::impact::{
    chars_less, chars_less_of, lemma_chars_less_irreflexive, lemma_chars_less_total, lemma_chars_less_transitive,
};
use crate::text::{decimal, decode, push_decimal, push_text, str_equal};

verus! {

/// A record of a projected graph: what the checks and the ordering read,
/// and the record's canonical JSON, carried along unread.
#[derive(Clone, Debug, PartialEq, Eq)]
pub struct ProjectedRecord {
    pub id: String,
    pub scope_id: String,
    pub schema_version: u32,
    pub body: Vec<u8>,
}

pub struct ProjectedRecordView {
    pub id: Seq<char>,
    pub scope_id: Seq<char>,
    pub schema_version: u32,
    pub body: Seq<u8>,
}

impl View for ProjectedRecord {
    type V = ProjectedRecordView;

    open spec fn view(&self) -> ProjectedRecordView {
        ProjectedRecordView { id: self.id@, scope_id: self.scope_id@, schema_version: self.schema_version, body: self.body@ }
    }
}

pub open spec fn records_view(v: Seq<ProjectedRecord>) -> Seq<ProjectedRecordView> {
    v.map_values(|r: ProjectedRecord| r@)
}

/// The records of one scope's graph, family by family.
#[derive(Clone, Debug, PartialEq, Eq)]
pub struct GraphExport {
    pub schema_version: u32,
    pub scope: ProjectedRecord,
    pub sources: Vec<ProjectedRecord>,
    pub domains: Vec<ProjectedRecord>,
    pub requirements: Vec<ProjectedRecord>,
    pub boundaries: Vec<ProjectedRecord>,
    pub topics: Vec<ProjectedRecord>,
    pub questions: Vec<ProjectedRecord>,
    pub resolutions: Vec<ProjectedRecord>,
    pub rules: Vec<ProjectedRecord>,
    pub services: Vec<ProjectedRecord>,
    pub service_bindings: Vec<ProjectedRecord>,
    pub edges: Vec<ProjectedRecord>,
}

/// A graph's records as plain values, family by family.
pub struct GraphExportView {
    pub schema_version: u32,
    pub scope: ProjectedRecordView,
    pub sources: Seq<ProjectedRecordView>,
    pub domains: Seq<ProjectedRecordView>,
    pub requirements: Seq<ProjectedRecordView>,
    pub boundaries: Seq<ProjectedRecordView>,
    pub topics: Seq<ProjectedRecordView>,
    pub questions: Seq<ProjectedRecordView>,
    pub resolutions: Seq<ProjectedRecordView>,
    pub rules: Seq<ProjectedRecordView>,
    pub services: Seq<ProjectedRecordView>,
    pub service_bindings: Seq<ProjectedRecordView>,
    pub edges: Seq<ProjectedRecordView>,
}

impl View for GraphExport {
    type V = GraphExportView;

    open spec fn view(&self) -> GraphExportView {
        GraphExportView {
            schema_version: self.schema_version,
            scope: self.scope@,
            sources: records_view(self.sources@),
            domains: records_view(self.domains@),
            requirements: records_view(self.requirements@),
            boundaries: records_view(self.boundaries@),
            topics: records_view(self.topics@),
            questions: records_view(self.questions@),
            resolutions: records_view(self.resolutions@),
            rules: records_view(self.rules@),
            services: records_view(self.services@),
            service_bindings: records_view(self.service_bindings@),
            edges: records_view(self.edges@),
        }
    }
}

/// The first of the two problems, if either.
pub open spec fn or_else(a: Option<Seq<char>>, b: Option<Seq<char>>) -> Option<Seq<char>> {
    if a is Some {
        a
    } else {
        b
    }
}

/// The first record of a family with a schema version other than 1, named
/// with the family's kind.
pub open spec fn version_problem_in(kind: Seq<char>, records: Seq<ProjectedRecordView>) -> Option<Seq<char>>
    decreases records.len(),
{
    if records.len() == 0 {
        None
    } else if records[0].schema_version != 1 {
        Some(
            kind + " '"@ + records[0].id + "' has unsupported schema_version "@ + decimal(records[0].schema_version as nat)
                + "; expected 1"@,
        )
    } else {
        version_problem_in(kind, records.drop_first())
    }
}

/// The first record of the graph, family by family, whose schema version is
/// not 1.
pub open spec fn version_problem(g: GraphExportView) -> Option<Seq<char>> {
    or_else(
        version_problem_in("source"@, g.sources),
        or_else(
            version_problem_in("domain"@, g.domains),
            or_else(
                version_problem_in("requirement"@, g.requirements),
                or_else(
                    version_problem_in("boundary"@, g.boundaries),
                    or_else(
                        version_problem_in("topic"@, g.topics),
                        or_else(
                            version_problem_in("question"@, g.questions),
                            or_else(
                                version_problem_in("resolution"@, g.resolutions),
                                or_else(
                                    version_problem_in("rule"@, g.rules),
                                    or_else(
                                        version_problem_in("service"@, g.services),
                                        or_else(
                                            version_problem_in("service binding"@, g.service_bindings),
                                            version_problem_in("edge"@, g.edges),
                                        ),
                                    ),
                                ),
                            ),
                        ),
                    ),
                ),
            ),
        ),
    )
}

/// The first record of a family that belongs to another scope.
pub open spec fn scope_problem_in(kind: Seq<char>, records: Seq<ProjectedRecordView>, scope: Seq<char>) -> Option<Seq<char>>
    decreases records.len(),
{
    if records.len() == 0 {
        None
    } else if records[0].scope_id != scope {
        Some(kind + " '"@ + records[0].id + "' belongs to scope '"@ + records[0].scope_id + "', not '"@ + scope + "'"@)
    } else {
        scope_problem_in(kind, records.drop_first(), scope)
    }
}

/// The first record of the graph, family by family, that belongs to a
/// scope other than `scope`.
pub open spec fn scope_problem(g: GraphExportView, scope: Seq<char>) -> Option<Seq<char>> {
    or_else(
        scope_problem_in("source"@, g.sources, scope),
        or_else(
            scope_problem_in("domain"@, g.domains, scope),
            or_else(
                scope_problem_in("requirement"@, g.requirements, scope),
                or_else(
                    scope_problem_in("boundary"@, g.boundaries, scope),
                    or_else(
                        scope_problem_in("topic"@, g.topics, scope),
                        or_else(
                            scope_problem_in("question"@, g.questions, scope),
                            or_else(
                                scope_problem_in("resolution"@, g.resolutions, scope),
                                or_else(
                                    scope_problem_in("rule"@, g.rules, scope),
                                    or_else(
                                        scope_problem_in("service"@, g.services, scope),
                                        or_else(
                                            scope_problem_in("service binding"@, g.service_bindings, scope),
                                            scope_problem_in("edge"@, g.edges, scope),
                                        ),
                                    ),
                                ),
                            ),
                        ),
                    ),
                ),
            ),
        ),
    )
}

fn version_problem_of(kind: &str, records: &Vec<ProjectedRecord>) -> (r: Option<String>)
    ensures
        match r {
            Some(m) => version_problem_in(kind@, records_view(records@)) == Some(m@),
            None => version_problem_in(kind@, records_view(records@)) is None,
        },
{
    let ghost all = records_view(records@);
    let mut i: usize = 0;
    assert(all.subrange(0, all.len() as int) =~= all);
    while i < records.len()
        invariant
            0 <= i <= records@.len(),
            all == records_view(records@),
            version_problem_in(kind@, all) == version_problem_in(kind@, all.subrange(i as int, all.len() as int)),
        decreases records@.len() - i,
    {
        let ghost rest = all.subrange(i as int, all.len() as int);
        assert(rest[0] == records@[i as int]@);
        let r = &records[i];
        if r.schema_version != 1 {
            let mut m = String::new();
            push_text(&mut m, kind);
            push_text(&mut m, " '");
            push_text(&mut m, r.id.as_str());
            push_text(&mut m, "' has unsupported schema_version ");
            push_decimal(&mut m, r.schema_version as u64);
            push_text(&mut m, "; expected 1");
            return Some(m);
        }
        assert(rest.drop_first() =~= all.subrange(i + 1, all.len() as int));
        i = i + 1;
    }
    None
}

fn scope_problem_of(kind: &str, records: &Vec<ProjectedRecord>, scope: &str) -> (r: Option<String>)
    ensures
        match r {
            Some(m) => scope_problem_in(kind@, records_view(records@), scope@) == Some(m@),
            None => scope_problem_in(kind@, records_view(records@), scope@) is None,
        },
{
    let ghost all = records_view(records@);
    let mut i: usize = 0;
    assert(all.subrange(0, all.len() as int) =~= all);
    while i < records.len()
        invariant
            0 <= i <= records@.len(),
            all == records_view(records@),
            scope_problem_in(kind@, all, scope@) == scope_problem_in(kind@, all.subrange(i as int, all.len() as int), scope@),
        decreases records@.len() - i,
    {
        let ghost rest = all.subrange(i as int, all.len() as int);
        assert(rest[0] == records@[i as int]@);
        let r = &records[i];
        if !str_equal(r.scope_id.as_str(), scope) {
            let mut m = String::new();
            push_text(&mut m, kind);
            push_text(&mut m, " '");
            push_text(&mut m, r.id.as_str());
            push_text(&mut m, "' belongs to scope '");
            push_text(&mut m, r.scope_id.as_str());
            push_text(&mut m, "', not '");
            push_text(&mut m, scope);
            push_text(&mut m, "'");
            return Some(m);
        }
        assert(rest.drop_first() =~= all.subrange(i + 1, all.len() as int));
        i = i + 1;
    }
    None
}

fn incomplete(detail: String) -> (e: GraphReferenceError)
    ensures
        e@ == (ErrorView::Incomplete { detail: detail@ }),
{
    GraphReferenceError::Incomplete { detail }
}

impl GraphExport {
    /// Every record of the graph has schema version 1; the first that does
    /// not, family by family, is named.
    pub fn validate_schema_versions(&self) -> (r: Result<(), GraphReferenceError>)
        ensures
            match version_problem(self@) {
                None => r is Ok,
                Some(m) => r matches Err(e) && e@ == (ErrorView::Incomplete { detail: m }),
            },
    {
        if let Some(m) = version_problem_of("source", &self.sources) {
            return Err(incomplete(m));
        }
        if let Some(m) = version_problem_of("domain", &self.domains) {
            return Err(incomplete(m));
        }
        if let Some(m) = version_problem_of("requirement", &self.requirements) {
            return Err(incomplete(m));
        }
        if let Some(m) = version_problem_of("boundary", &self.boundaries) {
            return Err(incomplete(m));
        }
        if let Some(m) = version_problem_of("topic", &self.topics) {
            return Err(incomplete(m));
        }
        if let Some(m) = version_problem_of("question", &self.questions) {
            return Err(incomplete(m));
        }
        if let Some(m) = version_problem_of("resolution", &self.resolutions) {
            return Err(incomplete(m));
        }
        if let Some(m) = version_problem_of("rule", &self.rules) {
            return Err(incomplete(m));
        }
        if let Some(m) = version_problem_of("service", &self.services) {
            return Err(incomplete(m));
        }
        if let Some(m) = version_problem_of("service binding", &self.service_bindings) {
            return Err(incomplete(m));
        }
        if let Some(m) = version_problem_of("edge", &self.edges) {
            return Err(incomplete(m));
        }
        Ok(())
    }
}

/// Every record of the graph belongs to `scope`; the first that does not,
/// family by family, is named.
pub fn validate_scope_ownership(graph: &GraphExport, scope: &str) -> (r: Result<(), GraphReferenceError>)
    ensures
        match scope_problem(graph@, scope@) {
            None => r is Ok,
            Some(m) => r matches Err(e) && e@ == (ErrorView::Incomplete { detail: m }),
        },
{
    if let Some(m) = scope_problem_of("source", &graph.sources, scope) {
        return Err(incomplete(m));
    }
    if let Some(m) = scope_problem_of("domain", &graph.domains, scope) {
        return Err(incomplete(m));
    }
    if let Some(m) = scope_problem_of("requirement", &graph.requirements, scope) {
        return Err(incomplete(m));
    }
    if let Some(m) = scope_problem_of("boundary", &graph.boundaries, scope) {
        return Err(incomplete(m));
    }
    if let Some(m) = scope_problem_of("topic", &graph.topics, scope) {
        return Err(incomplete(m));
    }
    if let Some(m) = scope_problem_of("question", &graph.questions, scope) {
        return Err(incomplete(m));
    }
    if let Some(m) = scope_problem_of("resolution", &graph.resolutions, scope) {
        return Err(incomplete(m));
    }
    if let Some(m) = scope_problem_of("rule", &graph.rules, scope) {
        return Err(incomplete(m));
    }
    if let Some(m) = scope_problem_of("service", &graph.services, scope) {
        return Err(incomplete(m));
    }
    if let Some(m) = scope_problem_of("service binding", &graph.service_bindings, scope) {
        return Err(incomplete(m));
    }
    if let Some(m) = scope_problem_of("edge", &graph.edges, scope) {
        return Err(incomplete(m));
    }
    Ok(())
}

/// The record placed after every record whose id does not come after its
/// own.
pub open spec fn insert_by_id(s: Seq<ProjectedRecordView>, x: ProjectedRecordView) -> Seq<ProjectedRecordView>
    decreases s.len(),
{
    if s.len() == 0 {
        seq![x]
    } else if chars_less(x.id, s.last().id) {
        insert_by_id(s.drop_last(), x).push(s.last())
    } else {
        s.push(x)
    }
}

/// The records in the order of their ids; records with the same id keep
/// their order.
pub open spec fn sorted_by_id(s: Seq<ProjectedRecordView>) -> Seq<ProjectedRecordView>
    decreases s.len(),
{
    if s.len() == 0 {
        seq![]
    } else {
        insert_by_id(sorted_by_id(s.drop_last()), s.last())
    }
}

/// No record's id comes before the id of a record ahead of it.
pub open spec fn ordered_by_id(s: Seq<ProjectedRecordView>) -> bool {
    forall|i: int, j: int| 0 <= i < j < s.len() ==> !chars_less((#[trigger] s[j]).id, (#[trigger] s[i]).id)
}

proof fn lemma_insert_at(s: Seq<ProjectedRecordView>, x: ProjectedRecordView, j: int)
    requires
        0 <= j <= s.len(),
        forall|t: int| j <= t < s.len() ==> chars_less(x.id, (#[trigger] s[t]).id),
        j == 0 || !chars_less(x.id, s[j - 1].id),
    ensures
        insert_by_id(s, x) == s.insert(j, x),
    decreases s.len(),
{
    if s.len() == j {
        assert(s.insert(j, x) =~= s.push(x));
    } else {
        let p = s.drop_last();
        assert forall|t: int| j <= t < p.len() implies chars_less(x.id, (#[trigger] p[t]).id) by {
            assert(p[t] == s[t]);
        }
        if j > 0 {
            assert(p[j - 1] == s[j - 1]);
        }
        lemma_insert_at(p, x, j);
        assert(s.insert(j, x) =~= p.insert(j, x).push(s.last()));
    }
}

proof fn lemma_insert_multiset(s: Seq<ProjectedRecordView>, x: ProjectedRecordView)
    ensures
        insert_by_id(s, x).to_multiset() =~= s.to_multiset().insert(x),
    decreases s.len(),
{
    broadcast use vstd::seq_lib::group_to_multiset_ensures;

    if s.len() > 0 {
        let p = s.drop_last();
        assert(s =~= p.push(s.last()));
        if chars_less(x.id, s.last().id) {
            lemma_insert_multiset(p, x);
        }
    } else {
        assert(seq![x] =~= Seq::<ProjectedRecordView>::empty().push(x));
    }
}

proof fn lemma_insert_ordered(s: Seq<ProjectedRecordView>, x: ProjectedRecordView)
    requires
        ordered_by_id(s),
    ensures
        ordered_by_id(insert_by_id(s, x)),
    decreases s.len(),
{
    broadcast use vstd::seq_lib::group_to_multiset_ensures;

    if s.len() > 0 {
        let p = s.drop_last();
        let last = s.last();
        if chars_less(x.id, last.id) {
            let t = insert_by_id(p, x);
            lemma_insert_ordered(p, x);
            lemma_insert_multiset(p, x);
            let r = t.push(last);
            assert forall|i: int| 0 <= i < t.len() implies !chars_less(last.id, (#[trigger] t[i]).id) by {
                assert(t.to_multiset().contains(t[i]));
                if t[i] != x {
                    assert(p.to_multiset().contains(t[i]));
                    let k = choose|k: int| 0 <= k < p.len() && p[k] == t[i];
                    assert(s[k] == p[k]);
                    assert(s[s.len() - 1] == last);
                } else {
                    lemma_chars_less_irreflexive(x.id);
                    if chars_less(last.id, x.id) {
                        lemma_chars_less_transitive(x.id, last.id, x.id);
                    }
                }
            }
            assert forall|i: int, j: int| 0 <= i < j < r.len() implies !chars_less(
                (#[trigger] r[j]).id,
                (#[trigger] r[i]).id,
            ) by {
                if j < t.len() {
                    assert(r[i] == t[i] && r[j] == t[j]);
                } else {
                    assert(r[j] == last);
                    assert(r[i] == t[i]);
                }
            }
        } else {
            let r = s.push(x);
            assert forall|i: int, j: int| 0 <= i < j < r.len() implies !chars_less(
                (#[trigger] r[j]).id,
                (#[trigger] r[i]).id,
            ) by {
                if j < s.len() {
                    assert(r[i] == s[i] && r[j] == s[j]);
                } else {
                    assert(r[j] == x && r[i] == s[i]);
                    if chars_less(x.id, s[i].id) {
                        if i < s.len() - 1 {
                            assert(!chars_less(s[s.len() - 1].id, s[i].id));
                            lemma_chars_less_total(s[i].id, last.id);
                            if chars_less(s[i].id, last.id) {
                                lemma_chars_less_transitive(x.id, s[i].id, last.id);
                            }
                        }
                    }
                }
            }
        }
    }
}

/// Sorting by id orders the records by their ids and keeps every record,
/// as many times as it occurs.
pub proof fn law_sorted_by_id_orders_and_keeps(s: Seq<ProjectedRecordView>)
    ensures
        ordered_by_id(sorted_by_id(s)),
        sorted_by_id(s).to_multiset() == s.to_multiset(),
    decreases s.len(),
{
    broadcast use vstd::seq_lib::group_to_multiset_ensures;

    if s.len() > 0 {
        let p = s.drop_last();
        law_sorted_by_id_orders_and_keeps(p);
        lemma_insert_ordered(sorted_by_id(p), s.last());
        lemma_insert_multiset(sorted_by_id(p), s.last());
        assert(s =~= p.push(s.last()));
    } else {
        assert(sorted_by_id(s).to_multiset() =~= s.to_multiset());
    }
}

fn sort_by_id(records: &mut Vec<ProjectedRecord>)
    ensures
        records_view(final(records)@) == sorted_by_id(records_view(old(records)@)),
{
    let mut pending: Vec<ProjectedRecord> = Vec::new();
    std::mem::swap(&mut pending, records);
    let ghost orig = records_view(pending@);
    let ghost mut k: int = 0;
    assert(records_view(records@) =~= sorted_by_id(orig.subrange(0, 0)));
    assert(records_view(pending@) =~= orig.subrange(0, orig.len() as int));
    while pending.len() > 0
        invariant
            0 <= k <= orig.len(),
            records_view(records@) == sorted_by_id(orig.subrange(0, k)),
            records_view(pending@) == orig.subrange(k, orig.len() as int),
        decreases pending@.len(),
    {
        let ghost before = records_view(records@);
        let ghost pv = records_view(pending@);
        let x = pending.remove(0);
        assert(x@ == pv[0]);
        assert(records_view(pending@) =~= pv.drop_first());
        let (xid, _) = decode(x.id.as_str());
        let mut j: usize = records.len();
        let mut searching = true;
        while searching && j > 0
            invariant
                j <= records@.len(),
                records_view(records@) == before,
                xid@ == x@.id,
                forall|t: int| j <= t < before.len() ==> chars_less(x@.id, (#[trigger] before[t]).id),
                !searching ==> j > 0 && !chars_less(x@.id, before[j - 1].id),
            decreases j + (if searching { 1int } else { 0int }),
        {
            let (yid, _) = decode(records[j - 1].id.as_str());
            assert(before[j - 1] == records@[j - 1]@);
            if chars_less_of(xid.as_slice(), yid.as_slice()) {
                j = j - 1;
            } else {
                searching = false;
            }
        }
        proof {
            lemma_insert_at(before, x@, j as int);
            let s = orig.subrange(0, k + 1);
            assert(s.drop_last() =~= orig.subrange(0, k));
            assert(s.last() == x@);
        }
        records.insert(j, x);
        assert(records_view(records@) =~= before.insert(j as int, x@));
        proof {
            k = k + 1;
        }
        assert(orig.subrange(k, orig.len() as int) =~= pv.drop_first());
    }
    assert(orig.subrange(0, k) =~= orig);
}

/// Puts the records of every family in the order of their ids.
pub fn sort_records(graph: &mut GraphExport)
    ensures
        records_view(final(graph).sources@) == sorted_by_id(records_view(old(graph).sources@)),
        records_view(final(graph).domains@) == sorted_by_id(records_view(old(graph).domains@)),
        records_view(final(graph).requirements@) == sorted_by_id(records_view(old(graph).requirements@)),
        records_view(final(graph).boundaries@) == sorted_by_id(records_view(old(graph).boundaries@)),
        records_view(final(graph).topics@) == sorted_by_id(records_view(old(graph).topics@)),
        records_view(final(graph).questions@) == sorted_by_id(records_view(old(graph).questions@)),
        records_view(final(graph).resolutions@) == sorted_by_id(records_view(old(graph).resolutions@)),
        records_view(final(graph).rules@) == sorted_by_id(records_view(old(graph).rules@)),
        records_view(final(graph).services@) == sorted_by_id(records_view(old(graph).services@)),
        records_view(final(graph).service_bindings@) == sorted_by_id(records_view(old(graph).service_bindings@)),
        records_view(final(graph).edges@) == sorted_by_id(records_view(old(graph).edges@)),
        final(graph).schema_version == old(graph).schema_version,
        final(graph).scope == old(graph).scope,
{
    sort_by_id(&mut graph.sources);
    sort_by_id(&mut graph.domains);
    sort_by_id(&mut graph.requirements);
    sort_by_id(&mut graph.boundaries);
    sort_by_id(&mut graph.topics);
    sort_by_id(&mut graph.questions);
    sort_by_id(&mut graph.resolutions);
    sort_by_id(&mut graph.rules);
    sort_by_id(&mut graph.services);
    sort_by_id(&mut graph.service_bindings);
    sort_by_id(&mut graph.edges);
}

/// The pinned manifest: its schema version and the scopes it lists.
pub struct ManifestReading {
    pub schema_version: u32,
    pub scopes: Vec<ProjectedRecord>,
}

/// What the store gave while a scope's graph was being projected: whether
/// the scope id is well formed, the manifest, and each family's records
/// (the edges of every scope), each as read or the message of the failure.
pub struct ProjectionReading {
    pub scope_check: Result<(), String>,
    pub manifest: Result<ManifestReading, GraphReferenceError>,
    pub sources: Result<Vec<ProjectedRecord>, String>,
    pub domains: Result<Vec<ProjectedRecord>, String>,
    pub requirements: Result<Vec<ProjectedRecord>, String>,
    pub boundaries: Result<Vec<ProjectedRecord>, String>,
    pub topics: Result<Vec<ProjectedRecord>, String>,
    pub questions: Result<Vec<ProjectedRecord>, String>,
    pub resolutions: Result<Vec<ProjectedRecord>, String>,
    pub rules: Result<Vec<ProjectedRecord>, String>,
    pub services: Result<Vec<ProjectedRecord>, String>,
    pub service_bindings: Result<Vec<ProjectedRecord>, String>,
    pub edges: Result<Vec<ProjectedRecord>, String>,
}

/// The index of the first record with the given id.
pub open spec fn first_with_id(records: Seq<ProjectedRecordView>, id: Seq<char>) -> Option<int>
    decreases records.len(),
{
    if records.len() == 0 {
        None
    } else if records[0].id == id {
        Some(0)
    } else {
        match first_with_id(records.drop_first(), id) {
            Some(k) => Some(k + 1),
            None => None,
        }
    }
}

/// The records of the given scope, in order.
pub open spec fn records_in_scope(records: Seq<ProjectedRecordView>, scope: Seq<char>) -> Seq<ProjectedRecordView>
    decreases records.len(),
{
    if records.len() == 0 {
        seq![]
    } else {
        records_in_scope(records.drop_last(), scope) + if records.last().scope_id == scope {
            seq![records.last()]
        } else {
            seq![]
        }
    }
}

/// The first family, in order, that could not be read, as its failure.
pub open spec fn read_failure(r: ProjectionReading) -> Option<Seq<char>> {
    if r.sources is Err {
        Some(r.sources->Err_0@)
    } else if r.domains is Err {
        Some(r.domains->Err_0@)
    } else if r.requirements is Err {
        Some(r.requirements->Err_0@)
    } else if r.boundaries is Err {
        Some(r.boundaries->Err_0@)
    } else if r.topics is Err {
        Some(r.topics->Err_0@)
    } else if r.questions is Err {
        Some(r.questions->Err_0@)
    } else if r.resolutions is Err {
        Some(r.resolutions->Err_0@)
    } else if r.rules is Err {
        Some(r.rules->Err_0@)
    } else if r.services is Err {
        Some(r.services->Err_0@)
    } else if r.service_bindings is Err {
        Some(r.service_bindings->Err_0@)
    } else if r.edges is Err {
        Some(r.edges->Err_0@)
    } else {
        None
    }
}

/// The graph as read: the scope's record from the manifest, each family's
/// records, and the edges of the scope.
pub open spec fn read_graph(scope: Seq<char>, r: ProjectionReading) -> GraphExportView {
    let scopes = records_view(r.manifest->Ok_0.scopes@);
    GraphExportView {
        schema_version: 1,
        scope: scopes[first_with_id(scopes, scope)->Some_0],
        sources: records_view(r.sources->Ok_0@),
        domains: records_view(r.domains->Ok_0@),
        requirements: records_view(r.requirements->Ok_0@),
        boundaries: records_view(r.boundaries->Ok_0@),
        topics: records_view(r.topics->Ok_0@),
        questions: records_view(r.questions->Ok_0@),
        resolutions: records_view(r.resolutions->Ok_0@),
        rules: records_view(r.rules->Ok_0@),
        services: records_view(r.services->Ok_0@),
        service_bindings: records_view(r.service_bindings->Ok_0@),
        edges: records_in_scope(records_view(r.edges->Ok_0@), scope),
    }
}

/// The graph with every family in the order of its ids.
pub open spec fn sorted_graph(g: GraphExportView) -> GraphExportView {
    GraphExportView {
        sources: sorted_by_id(g.sources),
        domains: sorted_by_id(g.domains),
        requirements: sorted_by_id(g.requirements),
        boundaries: sorted_by_id(g.boundaries),
        topics: sorted_by_id(g.topics),
        questions: sorted_by_id(g.questions),
        resolutions: sorted_by_id(g.resolutions),
        rules: sorted_by_id(g.rules),
        services: sorted_by_id(g.services),
        service_bindings: sorted_by_id(g.service_bindings),
        edges: sorted_by_id(g.edges),
        ..g
    }
}

/// The first step at which projecting the scope's graph fails, as the
/// error it gives, or `None` when every step succeeds.
pub open spec fn projection_failure(scope: Seq<char>, r: ProjectionReading) -> Option<ErrorView> {
    if r.scope_check is Err {
        Some(ErrorView::Incomplete { detail: r.scope_check->Err_0@ })
    } else if r.manifest is Err {
        Some(r.manifest->Err_0@)
    } else if r.manifest->Ok_0.schema_version != 1 {
        Some(
            ErrorView::Incomplete {
                detail: "unsupported manifest schema_version "@ + decimal(r.manifest->Ok_0.schema_version as nat),
            },
        )
    } else if first_with_id(records_view(r.manifest->Ok_0.scopes@), scope) is None {
        Some(ErrorView::Missing { detail: "scope '"@ + scope + "' is absent from the pinned manifest"@ })
    } else if read_failure(r) is Some {
        Some(ErrorView::Incomplete { detail: read_failure(r)->Some_0 })
    } else if version_problem(read_graph(scope, r)) is Some {
        Some(ErrorView::Incomplete { detail: version_problem(read_graph(scope, r))->Some_0 })
    } else if scope_problem(read_graph(scope, r), scope) is Some {
        Some(ErrorView::Incomplete { detail: scope_problem(read_graph(scope, r), scope)->Some_0 })
    } else {
        None
    }
}

fn take_family(family: Result<Vec<ProjectedRecord>, String>) -> (r: Result<Vec<ProjectedRecord>, GraphReferenceError>)
    ensures
        match family {
            Ok(v) => r == Ok::<Vec<ProjectedRecord>, GraphReferenceError>(v),
            Err(m) => r matches Err(e) && e@ == (ErrorView::Incomplete { detail: m@ }),
        },
{
    match family {
        Ok(v) => Ok(v),
        Err(m) => Err(incomplete(m)),
    }
}

fn find_scope(scopes: Vec<ProjectedRecord>, scope: &str) -> (r: Option<ProjectedRecord>)
    ensures
        match first_with_id(records_view(scopes@), scope@) {
            Some(k) => r matches Some(x) && x@ == records_view(scopes@)[k],
            None => r is None,
        },
{
    let ghost all = records_view(scopes@);
    let mut rest = scopes;
    let ghost mut k: int = 0;
    assert(all.subrange(0, all.len() as int) =~= all);
    while rest.len() > 0
        invariant
            all == records_view(scopes@),
            0 <= k <= all.len(),
            records_view(rest@) == all.subrange(k, all.len() as int),
            first_with_id(all, scope@) == match first_with_id(records_view(rest@), scope@) {
                Some(j) => Some(j + k),
                None => None,
            },
        decreases rest@.len(),
    {
        let ghost rv = records_view(rest@);
        assert(rv.len() > 0);
        assert(rv[0] == all.subrange(k, all.len() as int)[0]);
        let x = rest.remove(0);
        assert(x@ == rv[0]);
        if str_equal(x.id.as_str(), scope) {
            assert(all[k] == rv[0]);
            assert(first_with_id(rv, scope@) == Some(0int));
            assert(first_with_id(all, scope@) == Some(k));
            return Some(x);
        }
        assert(records_view(rest@) =~= rv.drop_first());
        proof {
            k = k + 1;
        }
        assert(all.subrange(k, all.len() as int) =~= rv.drop_first());
    }
    None
}

fn keep_in_scope(records: Vec<ProjectedRecord>, scope: &str) -> (r: Vec<ProjectedRecord>)
    ensures
        records_view(r@) == records_in_scope(records_view(records@), scope@),
{
    let ghost all = records_view(records@);
    let mut pending = records;
    let mut kept: Vec<ProjectedRecord> = Vec::new();
    let ghost mut k: int = 0;
    assert(all.subrange(0, all.len() as int) =~= all);
    assert(records_view(kept@) =~= records_in_scope(all.subrange(0, 0), scope@));
    while pending.len() > 0
        invariant
            all == records_view(records@),
            0 <= k <= all.len(),
            records_view(pending@) == all.subrange(k, all.len() as int),
            records_view(kept@) == records_in_scope(all.subrange(0, k), scope@),
        decreases pending@.len(),
    {
        let ghost pv = records_view(pending@);
        let ghost before = records_view(kept@);
        assert(pv.len() > 0);
        assert(pv[0] == all.subrange(k, all.len() as int)[0]);
        let x = pending.remove(0);
        assert(x@ == pv[0]);
        assert(pv[0] == all[k]);
        proof {
            let s = all.subrange(0, k + 1);
            assert(s.drop_last() =~= all.subrange(0, k));
            assert(s.last() == x@);
        }
        if str_equal(x.scope_id.as_str(), scope) {
            kept.push(x);
            assert(records_view(kept@) =~= before.push(pv[0]));
        }
        assert(records_view(pending@) =~= pv.drop_first());
        proof {
            k = k + 1;
        }
        assert(all.subrange(k, all.len() as int) =~= pv.drop_first());
        assert(records_view(kept@) =~= records_in_scope(all.subrange(0, k), scope@));
    }
    assert(all.subrange(0, k) =~= all);
    kept
}

/// Projects the graph of `scope` from what the store gave: the scope's
/// record from the manifest, every family, and the scope's edges, checked
/// for schema version 1 and for scope ownership, then sorted by id.
pub fn project_graph(scope: &str, reading: ProjectionReading) -> (r: Result<GraphExport, GraphReferenceError>)
    ensures
        match projection_failure(scope@, reading) {
            Some(e) => r matches Err(x) && x@ == e,
            None => r matches Ok(g) && g@ == sorted_graph(read_graph(scope@, reading)),
        },
{
    let ghost original = reading;
    let ProjectionReading {
        scope_check,
        manifest,
        sources,
        domains,
        requirements,
        boundaries,
        topics,
        questions,
        resolutions,
        rules,
        services,
        service_bindings,
        edges,
    } = reading;
    if let Err(m) = scope_check {
        return Err(incomplete(m));
    }
    let manifest = match manifest {
        Err(e) => {
            return Err(e);
        },
        Ok(m) => m,
    };
    if manifest.schema_version != 1 {
        let mut m = String::new();
        push_text(&mut m, "unsupported manifest schema_version ");
        push_decimal(&mut m, manifest.schema_version as u64);
        return Err(incomplete(m));
    }
    let selected = match find_scope(manifest.scopes, scope) {
        None => {
            let mut m = String::new();
            push_text(&mut m, "scope '");
            push_text(&mut m, scope);
            push_text(&mut m, "' is absent from the pinned manifest");
            return Err(GraphReferenceError::Missing { detail: m });
        },
        Some(x) => x,
    };
    let sources = match take_family(sources) {
        Err(e) => {
            return Err(e);
        },
        Ok(v) => v,
    };
    let domains = match take_family(domains) {
        Err(e) => {
            return Err(e);
        },
        Ok(v) => v,
    };
    let requirements = match take_family(requirements) {
        Err(e) => {
            return Err(e);
        },
        Ok(v) => v,
    };
    let boundaries = match take_family(boundaries) {
        Err(e) => {
            return Err(e);
        },
        Ok(v) => v,
    };
    let topics = match take_family(topics) {
        Err(e) => {
            return Err(e);
        },
        Ok(v) => v,
    };
    let questions = match take_family(questions) {
        Err(e) => {
            return Err(e);
        },
        Ok(v) => v,
    };
    let resolutions = match take_family(resolutions) {
        Err(e) => {
            return Err(e);
        },
        Ok(v) => v,
    };
    let rules = match take_family(rules) {
        Err(e) => {
            return Err(e);
        },
        Ok(v) => v,
    };
    let services = match take_family(services) {
        Err(e) => {
            return Err(e);
        },
        Ok(v) => v,
    };
    let service_bindings = match take_family(service_bindings) {
        Err(e) => {
            return Err(e);
        },
        Ok(v) => v,
    };
    let edges = match take_family(edges) {
        Err(e) => {
            return Err(e);
        },
        Ok(v) => v,
    };
    let mut graph = GraphExport {
        schema_version: 1,
        scope: selected,
        sources,
        domains,
        requirements,
        boundaries,
        topics,
        questions,
        resolutions,
        rules,
        services,
        service_bindings,
        edges: keep_in_scope(edges, scope),
    };
    assert(graph@ == read_graph(scope@, original));
    if let Err(e) = graph.validate_schema_versions() {
        return Err(e);
    }
    if let Err(e) = validate_scope_ownership(&graph, scope) {
        return Err(e);
    }
    sort_records(&mut graph);
    Ok(graph)
}

} // verus!
