//! Where a repository keeps its provenance state, cache and record shards.
use vstd::prelude::*;

verus! {

/// What `camino::Utf8Path::join` gives for a base path and a relative part:
/// the part adjoined to the base by the path syntax of the target the
/// library is built for. Named here, not spelled out.
pub uninterp spec fn joined(base: Seq<char>, part: Seq<char>) -> Seq<char>;

/// `camino::Utf8Path::join`, as text.
#[verifier::external_body]
pub(crate) fn join_path(base: &str, part: &str) -> (r: String)
    ensures
        r@ == joined(base@, part@),
{
    camino::Utf8Path::new(base).join(part).into_string()
}

/// The layout of the provenance directory of the repository at `root`.
#[derive(Clone, Debug, PartialEq, Eq)]
pub struct ProvenanceLayout {
    pub root: String,
}

pub open spec fn provenance_dir_of(root: Seq<char>) -> Seq<char> {
    joined(root, ".provenance"@)
}

pub open spec fn state_dir_of(root: Seq<char>) -> Seq<char> {
    joined(provenance_dir_of(root), "state"@)
}

pub open spec fn scopes_dir_of(root: Seq<char>) -> Seq<char> {
    joined(state_dir_of(root), "scopes"@)
}

pub open spec fn edges_dir_of(root: Seq<char>) -> Seq<char> {
    joined(state_dir_of(root), "edges"@)
}

pub open spec fn cache_dir_of(root: Seq<char>) -> Seq<char> {
    joined(provenance_dir_of(root), "cache"@)
}

/// The shard of a per-scope record family: `file` inside the scope's
/// directory under the scopes directory.
pub open spec fn scope_shard(root: Seq<char>, scope: Seq<char>, file: Seq<char>) -> Seq<char> {
    joined(joined(scopes_dir_of(root), scope), file)
}

impl ProvenanceLayout {
    pub fn new(root: String) -> (l: ProvenanceLayout)
        ensures
            l.root == root,
    {
        ProvenanceLayout { root }
    }

    /// `<root>/.provenance`
    pub fn provenance_dir(&self) -> (p: String)
        ensures
            p@ == provenance_dir_of(self.root@),
    {
        join_path(self.root.as_str(), ".provenance")
    }

    /// `<root>/.provenance/state`
    pub fn state_dir(&self) -> (p: String)
        ensures
            p@ == state_dir_of(self.root@),
    {
        join_path(self.provenance_dir().as_str(), "state")
    }

    /// `<root>/.provenance/state/scopes`
    pub fn scopes_dir(&self) -> (p: String)
        ensures
            p@ == scopes_dir_of(self.root@),
    {
        join_path(self.state_dir().as_str(), "scopes")
    }

    /// `<root>/.provenance/state/edges`
    pub fn edges_dir(&self) -> (p: String)
        ensures
            p@ == edges_dir_of(self.root@),
    {
        join_path(self.state_dir().as_str(), "edges")
    }

    /// `<root>/.provenance/cache`
    pub fn cache_dir(&self) -> (p: String)
        ensures
            p@ == cache_dir_of(self.root@),
    {
        join_path(self.provenance_dir().as_str(), "cache")
    }

    /// `<root>/.provenance/cache/provenance.db`
    pub fn cache_db_path(&self) -> (p: String)
        ensures
            p@ == joined(cache_dir_of(self.root@), "provenance.db"@),
    {
        join_path(self.cache_dir().as_str(), "provenance.db")
    }
}

fn scope_file(layout: &ProvenanceLayout, scope: &str, file: &str) -> (p: String)
    ensures
        p@ == scope_shard(layout.root@, scope@, file@),
{
    let scope_dir = join_path(layout.scopes_dir().as_str(), scope);
    join_path(scope_dir.as_str(), file)
}

pub fn sources_path(layout: &ProvenanceLayout, scope: &str) -> (p: String)
    ensures
        p@ == scope_shard(layout.root@, scope@, "sources/source.jsonl"@),
{
    scope_file(layout, scope, "sources/source.jsonl")
}

pub fn requirements_path(layout: &ProvenanceLayout, scope: &str) -> (p: String)
    ensures
        p@ == scope_shard(layout.root@, scope@, "requirements/req.jsonl"@),
{
    scope_file(layout, scope, "requirements/req.jsonl")
}

pub fn domains_path(layout: &ProvenanceLayout, scope: &str) -> (p: String)
    ensures
        p@ == scope_shard(layout.root@, scope@, "domains/domain.jsonl"@),
{
    scope_file(layout, scope, "domains/domain.jsonl")
}

pub fn boundaries_path(layout: &ProvenanceLayout, scope: &str) -> (p: String)
    ensures
        p@ == scope_shard(layout.root@, scope@, "boundaries/boundary.jsonl"@),
{
    scope_file(layout, scope, "boundaries/boundary.jsonl")
}

pub fn topics_path(layout: &ProvenanceLayout, scope: &str) -> (p: String)
    ensures
        p@ == scope_shard(layout.root@, scope@, "topics/topic.jsonl"@),
{
    scope_file(layout, scope, "topics/topic.jsonl")
}

pub fn questions_path(layout: &ProvenanceLayout, scope: &str) -> (p: String)
    ensures
        p@ == scope_shard(layout.root@, scope@, "questions/question.jsonl"@),
{
    scope_file(layout, scope, "questions/question.jsonl")
}

pub fn resolutions_path(layout: &ProvenanceLayout, scope: &str) -> (p: String)
    ensures
        p@ == scope_shard(layout.root@, scope@, "resolutions/res.jsonl"@),
{
    scope_file(layout, scope, "resolutions/res.jsonl")
}

pub fn rules_path(layout: &ProvenanceLayout, scope: &str) -> (p: String)
    ensures
        p@ == scope_shard(layout.root@, scope@, "rules/rule.jsonl"@),
{
    scope_file(layout, scope, "rules/rule.jsonl")
}

pub fn services_path(layout: &ProvenanceLayout, scope: &str) -> (p: String)
    ensures
        p@ == scope_shard(layout.root@, scope@, "services/service.jsonl"@),
{
    scope_file(layout, scope, "services/service.jsonl")
}

pub fn service_bindings_path(layout: &ProvenanceLayout, scope: &str) -> (p: String)
    ensures
        p@ == scope_shard(layout.root@, scope@, "services/service_binding.jsonl"@),
{
    scope_file(layout, scope, "services/service_binding.jsonl")
}

pub fn threads_path(layout: &ProvenanceLayout, scope: &str) -> (p: String)
    ensures
        p@ == scope_shard(layout.root@, scope@, "threads/threads.jsonl"@),
{
    scope_file(layout, scope, "threads/threads.jsonl")
}

pub fn messages_path(layout: &ProvenanceLayout, scope: &str) -> (p: String)
    ensures
        p@ == scope_shard(layout.root@, scope@, "threads/2026-07.jsonl"@),
{
    scope_file(layout, scope, "threads/2026-07.jsonl")
}

pub fn contributions_path(layout: &ProvenanceLayout, scope: &str) -> (p: String)
    ensures
        p@ == scope_shard(layout.root@, scope@, "ideation/contributions.jsonl"@),
{
    scope_file(layout, scope, "ideation/contributions.jsonl")
}

pub fn synthesis_packets_path(layout: &ProvenanceLayout, scope: &str) -> (p: String)
    ensures
        p@ == scope_shard(layout.root@, scope@, "ideation/synthesis_packets.jsonl"@),
{
    scope_file(layout, scope, "ideation/synthesis_packets.jsonl")
}

pub fn proposal_cards_path(layout: &ProvenanceLayout, scope: &str) -> (p: String)
    ensures
        p@ == scope_shard(layout.root@, scope@, "ideation/proposal_cards.jsonl"@),
{
    scope_file(layout, scope, "ideation/proposal_cards.jsonl")
}

pub fn assertion_records_path(layout: &ProvenanceLayout, scope: &str) -> (p: String)
    ensures
        p@ == scope_shard(layout.root@, scope@, "ideation/assertion_records.jsonl"@),
{
    scope_file(layout, scope, "ideation/assertion_records.jsonl")
}

pub fn ideation_landings_path(layout: &ProvenanceLayout, scope: &str) -> (p: String)
    ensures
        p@ == scope_shard(layout.root@, scope@, "ideation/landings.jsonl"@),
{
    scope_file(layout, scope, "ideation/landings.jsonl")
}

pub fn promotion_decisions_path(layout: &ProvenanceLayout, scope: &str) -> (p: String)
    ensures
        p@ == scope_shard(layout.root@, scope@, "ideation/promotion_decisions.jsonl"@),
{
    scope_file(layout, scope, "ideation/promotion_decisions.jsonl")
}

/// `<root>/.provenance/state/edges/edges-00.jsonl`
pub fn edges_path(layout: &ProvenanceLayout) -> (p: String)
    ensures
        p@ == joined(edges_dir_of(layout.root@), "edges-00.jsonl"@),
{
    join_path(layout.edges_dir().as_str(), "edges-00.jsonl")
}

/// A directory that might be the repository root, and whether `.git` or the
/// provenance manifest exists inside it.
#[derive(Clone, Debug, PartialEq, Eq)]
pub struct RootCandidate {
    pub path: String,
    pub has_git: bool,
    pub has_manifest: bool,
}

/// The first candidate that holds `.git` or the provenance manifest.
pub open spec fn first_root(candidates: Seq<RootCandidate>) -> Option<int>
    decreases candidates.len(),
{
    if candidates.len() == 0 {
        None
    } else if candidates[0].has_git || candidates[0].has_manifest {
        Some(0)
    } else {
        match first_root(candidates.drop_first()) {
            Some(k) => Some(k + 1),
            None => None,
        }
    }
}

/// The repository root: the first of the directories from `start` upward
/// that holds `.git` or the provenance manifest, given in that order with
/// what exists inside each.
pub fn locate_repo_root(start: &str, candidates: &[RootCandidate]) -> (r: Result<String, String>)
    ensures
        match first_root(candidates@) {
            Some(k) => r == Ok::<String, String>(candidates@[k].path),
            None => r is Err && r->Err_0@ == "could not locate repository root from "@ + start@,
        },
{
    let mut i: usize = 0;
    assert(candidates@.subrange(0, candidates@.len() as int) =~= candidates@);
    while i < candidates.len()
        invariant
            0 <= i <= candidates@.len(),
            first_root(candidates@) == match first_root(candidates@.subrange(i as int, candidates@.len() as int)) {
                Some(k) => Some(k + i),
                None => None,
            },
        decreases candidates@.len() - i,
    {
        let ghost rest = candidates@.subrange(i as int, candidates@.len() as int);
        assert(rest[0] == candidates@[i as int]);
        if candidates[i].has_git || candidates[i].has_manifest {
            return Ok(candidates[i].path.clone());
        }
        assert(rest.drop_first() =~= candidates@.subrange(i + 1, candidates@.len() as int));
        i = i + 1;
    }
    let mut message = String::new();
    crate::text::push_text(&mut message, "could not locate repository root from ");
    crate::text::push_text(&mut message, start);
    Err(message)
}

} // verus!
