//! The checks that come before the cache is rebuilt from canonical state,
//! and the count of records the rebuild loads.
use vstd::prelude::*;
use super::graph::{contains_id, ids_view};
use crate::text::{push_text, str_equal};

verus! {

/// The refusal of an edge whose scope the manifest does not list.
pub const EDGE_SCOPE_MESSAGE: &'static str = "edge scope_id must name a manifest scope";

/// One scope's records as the rebuild reads them: the scope each record
/// names, family by family, for the families whose ownership is checked,
/// and how many records each of the other loaded families holds.
#[derive(Clone, Debug, PartialEq, Eq)]
pub struct ScopeRecords {
    pub scope_id: String,
    pub sources: Vec<String>,
    pub domains: Vec<String>,
    pub requirements: Vec<String>,
    pub boundaries: Vec<String>,
    pub topics: Vec<String>,
    pub questions: Vec<String>,
    pub resolutions: Vec<String>,
    pub rules: Vec<String>,
    pub services: Vec<String>,
    pub service_bindings: Vec<String>,
    pub threads: Vec<String>,
    pub messages: Vec<String>,
    pub contributions: usize,
    pub synthesis_packets: usize,
    pub proposal_cards: usize,
    pub promotion_decisions: usize,
}

pub struct ScopeRecordsView {
    pub scope_id: Seq<char>,
    pub families: Seq<(Seq<char>, Seq<Seq<char>>)>,
    pub counted: nat,
}

/// The checked families, each with the word that names its records.
pub open spec fn families_of(r: ScopeRecords) -> Seq<(Seq<char>, Seq<Seq<char>>)> {
    seq![
        ("source"@, ids_view(r.sources@)),
        ("domain"@, ids_view(r.domains@)),
        ("requirement"@, ids_view(r.requirements@)),
        ("boundary"@, ids_view(r.boundaries@)),
        ("topic"@, ids_view(r.topics@)),
        ("question"@, ids_view(r.questions@)),
        ("resolution"@, ids_view(r.resolutions@)),
        ("rule"@, ids_view(r.rules@)),
        ("service"@, ids_view(r.services@)),
        ("service binding"@, ids_view(r.service_bindings@)),
        ("thread"@, ids_view(r.threads@)),
        ("message"@, ids_view(r.messages@)),
    ]
}

impl View for ScopeRecords {
    type V = ScopeRecordsView;

    open spec fn view(&self) -> ScopeRecordsView {
        ScopeRecordsView {
            scope_id: self.scope_id@,
            families: families_of(*self),
            counted: (self.contributions + self.synthesis_packets + self.proposal_cards
                + self.promotion_decisions) as nat,
        }
    }
}

/// Every record of the family names `scope`.
pub open spec fn owned(ids: Seq<Seq<char>>, scope: Seq<char>) -> bool {
    forall|i: int| 0 <= i < ids.len() ==> ids[i] == scope
}

/// The refusal of a record of `kind` that names another scope.
pub open spec fn ownership_message(kind: Seq<char>) -> Seq<char> {
    kind + " scope_id must match containing scope"@
}

/// The first of `families`, from `k` on, that holds a record of another
/// scope, as its refusal.
pub open spec fn ownership_problem_from(families: Seq<(Seq<char>, Seq<Seq<char>>)>, scope: Seq<char>, k: int) -> Option<
    Seq<char>,
>
    decreases families.len() - k,
{
    if k < 0 || k >= families.len() {
        None
    } else if !owned(families[k].1, scope) {
        Some(ownership_message(families[k].0))
    } else {
        ownership_problem_from(families, scope, k + 1)
    }
}

/// Why a scope's records do not all belong to it, or `None` when they do.
pub open spec fn ownership_problem(r: ScopeRecordsView) -> Option<Seq<char>> {
    ownership_problem_from(r.families, r.scope_id, 0)
}

/// How many records of a scope the rebuild loads.
pub open spec fn scope_total(r: ScopeRecordsView) -> nat
{
    family_total(r.families, 0) + r.counted
}

pub open spec fn family_total(families: Seq<(Seq<char>, Seq<Seq<char>>)>, k: int) -> nat
    decreases families.len() - k,
{
    if k < 0 || k >= families.len() {
        0
    } else {
        families[k].1.len() + family_total(families, k + 1)
    }
}

/// How many records the rebuild loads for all scopes, edges aside.
pub open spec fn scopes_total(scopes: Seq<ScopeRecordsView>) -> nat
    decreases scopes.len(),
{
    if scopes.len() == 0 {
        0
    } else {
        scopes_total(scopes.drop_last()) + scope_total(scopes.last())
    }
}

/// The first scope, in order, whose records do not all belong to it.
pub open spec fn first_ownership_problem(scopes: Seq<ScopeRecordsView>) -> Option<Seq<char>>
    decreases scopes.len(),
{
    if scopes.len() == 0 {
        None
    } else if first_ownership_problem(scopes.drop_last()) is Some {
        first_ownership_problem(scopes.drop_last())
    } else {
        ownership_problem(scopes.last())
    }
}

pub open spec fn scopes_view(v: Seq<ScopeRecords>) -> Seq<ScopeRecordsView> {
    v.map_values(|r: ScopeRecords| r@)
}

fn all_named(ids: &Vec<String>, scope: &str) -> (b: bool)
    ensures
        b == owned(ids_view(ids@), scope@),
{
    let mut i: usize = 0;
    while i < ids.len()
        invariant
            0 <= i <= ids@.len(),
            forall|j: int| 0 <= j < i ==> ids@[j]@ == scope@,
        decreases ids@.len() - i,
    {
        if !str_equal(ids[i].as_str(), scope) {
            assert(ids_view(ids@)[i as int] != scope@);
            return false;
        }
        i = i + 1;
    }
    true
}

fn refusal(kind: &str) -> (m: String)
    ensures
        m@ == ownership_message(kind@),
{
    let mut m = String::new();
    push_text(&mut m, kind);
    push_text(&mut m, " scope_id must match containing scope");
    proof {
        reveal_strlit(" scope_id must match containing scope");
    }
    m
}

/// Every record read for the scope names that scope; the first family, in
/// load order, that holds a record of another scope is refused.
pub fn validate_scope_ownership(records: &ScopeRecords) -> (r: Result<(), String>)
    ensures
        match ownership_problem(records@) {
            None => r is Ok,
            Some(m) => r matches Err(e) && e@ == m,
        },
{
    let ghost f = records@.families;
    let ghost s = records@.scope_id;
    let scope = records.scope_id.as_str();
    proof {
        reveal_with_fuel(ownership_problem_from, 13);
    }
    if !all_named(&records.sources, scope) {
        return Err(refusal("source"));
    }
    if !all_named(&records.domains, scope) {
        return Err(refusal("domain"));
    }
    if !all_named(&records.requirements, scope) {
        return Err(refusal("requirement"));
    }
    if !all_named(&records.boundaries, scope) {
        return Err(refusal("boundary"));
    }
    if !all_named(&records.topics, scope) {
        return Err(refusal("topic"));
    }
    if !all_named(&records.questions, scope) {
        return Err(refusal("question"));
    }
    if !all_named(&records.resolutions, scope) {
        return Err(refusal("resolution"));
    }
    if !all_named(&records.rules, scope) {
        return Err(refusal("rule"));
    }
    if !all_named(&records.services, scope) {
        return Err(refusal("service"));
    }
    if !all_named(&records.service_bindings, scope) {
        return Err(refusal("service binding"));
    }
    if !all_named(&records.threads, scope) {
        return Err(refusal("thread"));
    }
    if !all_named(&records.messages, scope) {
        return Err(refusal("message"));
    }
    Ok(())
}

/// Every edge names a scope the manifest lists.
pub fn validate_edge_scopes(manifest_scopes: &[String], edge_scopes: &[String]) -> (r: Result<(), String>)
    ensures
        r is Ok <==> forall|i: int| 0 <= i < edge_scopes@.len() ==> ids_view(manifest_scopes@).contains(
            #[trigger] edge_scopes@[i]@,
        ),
        r matches Err(e) ==> e@ == EDGE_SCOPE_MESSAGE@,
{
    let mut i: usize = 0;
    while i < edge_scopes.len()
        invariant
            0 <= i <= edge_scopes@.len(),
            forall|j: int| 0 <= j < i ==> ids_view(manifest_scopes@).contains(#[trigger] edge_scopes@[j]@),
        decreases edge_scopes@.len() - i,
    {
        if !contains_id(manifest_scopes, edge_scopes[i].as_str()) {
            return Err(EDGE_SCOPE_MESSAGE.to_owned());
        }
        i = i + 1;
    }
    Ok(())
}

fn scope_count(r: &ScopeRecords) -> (n: u128)
    ensures
        n == scope_total(r@),
{
    proof {
        reveal_with_fuel(family_total, 13);
    }
    let mut n: u128 = r.sources.len() as u128;
    n = n + r.domains.len() as u128;
    n = n + r.requirements.len() as u128;
    n = n + r.boundaries.len() as u128;
    n = n + r.topics.len() as u128;
    n = n + r.questions.len() as u128;
    n = n + r.resolutions.len() as u128;
    n = n + r.rules.len() as u128;
    n = n + r.services.len() as u128;
    n = n + r.service_bindings.len() as u128;
    n = n + r.threads.len() as u128;
    n = n + r.messages.len() as u128;
    n = n + r.contributions as u128 + r.synthesis_packets as u128 + r.proposal_cards as u128
        + r.promotion_decisions as u128;
    n
}

/// Checks what the rebuild read before anything is loaded: every edge names
/// a manifest scope, and then each scope, in manifest order, holds only its
/// own records. On success, the number of records the rebuild loads: every
/// record of every scope and every edge.
pub fn check_materialization(manifest_scopes: &[String], edge_scopes: &[String], scopes: &[ScopeRecords]) -> (r:
    Result<u64, String>)
    requires
        scopes_total(scopes_view(scopes@)) + edge_scopes@.len() <= u64::MAX,
    ensures
        (forall|i: int| 0 <= i < edge_scopes@.len() ==> ids_view(manifest_scopes@).contains(
            #[trigger] edge_scopes@[i]@,
        )) ==> match first_ownership_problem(scopes_view(scopes@)) {
            None => r == Ok::<u64, String>((scopes_total(scopes_view(scopes@)) + edge_scopes@.len()) as u64),
            Some(m) => r matches Err(e) && e@ == m,
        },
        !(forall|i: int| 0 <= i < edge_scopes@.len() ==> ids_view(manifest_scopes@).contains(
            #[trigger] edge_scopes@[i]@,
        )) ==> (r matches Err(e) && e@ == EDGE_SCOPE_MESSAGE@),
{
    validate_edge_scopes(manifest_scopes, edge_scopes)?;
    let ghost sv = scopes_view(scopes@);
    let mut total: u128 = 0;
    let mut i: usize = 0;
    while i < scopes.len()
        invariant
            0 <= i <= scopes@.len(),
            sv == scopes_view(scopes@),
            first_ownership_problem(sv.subrange(0, i as int)) is None,
            total == scopes_total(sv.subrange(0, i as int)),
            scopes_total(sv) + edge_scopes@.len() <= u64::MAX,
            forall|j: int| 0 <= j < edge_scopes@.len() ==> ids_view(manifest_scopes@).contains(
                #[trigger] edge_scopes@[j]@,
            ),
        decreases scopes@.len() - i,
    {
        proof {
            let s = sv.subrange(0, i + 1);
            assert(s.drop_last() =~= sv.subrange(0, i as int));
            assert(s.last() == scopes@[i as int]@);
            lemma_total_prefix(sv, i + 1);
        }
        match validate_scope_ownership(&scopes[i]) {
            Err(e) => {
                proof {
                    lemma_problem_prefix(sv, i + 1);
                }
                return Err(e);
            },
            Ok(()) => {},
        }
        total = total + scope_count(&scopes[i]);
        i = i + 1;
    }
    proof {
        assert(sv.subrange(0, scopes@.len() as int) =~= sv);
    }
    Ok((total + edge_scopes.len() as u128) as u64)
}

/// The first problem of a prefix is the first problem of the whole.
proof fn lemma_problem_prefix(sv: Seq<ScopeRecordsView>, n: int)
    requires
        0 <= n <= sv.len(),
        first_ownership_problem(sv.subrange(0, n)) is Some,
    ensures
        first_ownership_problem(sv) == first_ownership_problem(sv.subrange(0, n)),
    decreases sv.len() - n,
{
    if n < sv.len() {
        let s = sv.subrange(0, n + 1);
        assert(s.drop_last() =~= sv.subrange(0, n));
        lemma_problem_prefix(sv, n + 1);
    } else {
        assert(sv.subrange(0, n) =~= sv);
    }
}

/// A prefix of the scopes loads no more records than all of them.
proof fn lemma_total_prefix(sv: Seq<ScopeRecordsView>, n: int)
    requires
        0 <= n <= sv.len(),
    ensures
        scopes_total(sv.subrange(0, n)) <= scopes_total(sv),
    decreases sv.len() - n,
{
    if n < sv.len() {
        lemma_total_prefix(sv, n + 1);
        let s = sv.subrange(0, n + 1);
        assert(s.drop_last() =~= sv.subrange(0, n));
    } else {
        assert(sv.subrange(0, n) =~= sv);
    }
}

} // verus!
