//! Graph references: content-addressed pointers to one scope's canonical
//! graph at one commit, and the checks that a reference still resolves.
pub mod projection;

use vstd::prelude::*;
use vstd::string::StringSliceAdditionalSpecFns;
use vstd::utf8::{encode_scalar, encode_utf8};
use vstd::string::StringExecFns;
use sha2::Digest;
use crate::text::{decimal, hex_digit, hex_of, push_decimal, push_hex, whitespace};
use self::projection::{scope_problem, validate_scope_ownership, version_problem, GraphExport, GraphExportView};

verus! {

/// The state directory every reference names.
pub const STORE_PATH: &'static str = ".provenance/state";
/// The framing tag hashed in front of a reference's parts.
pub const IDENTITY_DOMAIN: &'static str = "graph-reference-v1";
/// Prefix of a reference identifier.
pub const REFERENCE_PREFIX: &'static str = "grf1_";
/// Prefix of a repository identifier.
pub const REPOSITORY_PREFIX: &'static str = "git1_";
/// Prefix of a graph digest.
pub const DIGEST_PREFIX: &'static str = "sha256:";

pub const CORRELATION_MESSAGE: &'static str = "external correlation system and key must not be empty";
pub const COMMIT_MESSAGE: &'static str = "commit must be a full 40- or 64-character hexadecimal object ID";
pub const STORE_PATH_MESSAGE: &'static str = "store_path must be '.provenance/state'";

/// An identifier of the reference in a system outside this repository.
#[derive(Clone, Debug, PartialEq, Eq)]
pub struct ExternalCorrelation {
    pub system: String,
    pub key: String,
}

/// A pointer to the canonical graph of one scope at one commit.
#[derive(Clone, Debug, PartialEq, Eq)]
pub struct GraphReference {
    pub schema_version: u32,
    pub reference_id: String,
    pub repository_id: String,
    pub store_path: String,
    pub scope_id: String,
    pub commit: String,
    pub graph_digest: String,
    pub correlation: Option<ExternalCorrelation>,
}

/// Why a reference could not be issued, read or verified.
#[derive(Clone, Debug, PartialEq, Eq)]
pub enum GraphReferenceError {
    Missing { detail: String },
    Mismatched { field: &'static str, expected: String, actual: String },
    Incomplete { detail: String },
}

/// A reference with the record counts of the graph it points at.
#[derive(Clone, Debug, PartialEq, Eq)]
pub struct GraphReferenceSummary {
    pub schema_version: u32,
    pub operation: &'static str,
    pub reference: GraphReference,
    pub counts: GraphCounts,
}

/// The answer to a verification request.
#[derive(Clone, Debug, PartialEq, Eq)]
pub struct Verification {
    pub schema_version: u32,
    pub operation: &'static str,
    pub valid: bool,
    pub reference_id: String,
}

/// How many records of each family a graph holds.
#[derive(Clone, Copy, Debug, PartialEq, Eq, Structural)]
pub struct GraphCounts {
    pub sources: usize,
    pub domains: usize,
    pub requirements: usize,
    pub boundaries: usize,
    pub topics: usize,
    pub questions: usize,
    pub resolutions: usize,
    pub rules: usize,
    pub services: usize,
    pub service_bindings: usize,
    pub edges: usize,
}

/// The counts are those of the graph's families.
pub open spec fn counts_of(c: GraphCounts, g: GraphExportView) -> bool {
    &&& c.sources == g.sources.len()
    &&& c.domains == g.domains.len()
    &&& c.requirements == g.requirements.len()
    &&& c.boundaries == g.boundaries.len()
    &&& c.topics == g.topics.len()
    &&& c.questions == g.questions.len()
    &&& c.resolutions == g.resolutions.len()
    &&& c.rules == g.rules.len()
    &&& c.services == g.services.len()
    &&& c.service_bindings == g.service_bindings.len()
    &&& c.edges == g.edges.len()
}

impl GraphCounts {
    /// How many records of each family the graph holds.
    pub fn of(graph: &GraphExport) -> (c: GraphCounts)
        ensures
            counts_of(c, graph@),
    {
        GraphCounts {
            sources: graph.sources.len(),
            domains: graph.domains.len(),
            requirements: graph.requirements.len(),
            boundaries: graph.boundaries.len(),
            topics: graph.topics.len(),
            questions: graph.questions.len(),
            resolutions: graph.resolutions.len(),
            rules: graph.rules.len(),
            services: graph.services.len(),
            service_bindings: graph.service_bindings.len(),
            edges: graph.edges.len(),
        }
    }
}

/// The answer to an exact-export request: the graph a checked reference
/// names.
#[derive(Clone, Debug, PartialEq, Eq)]
pub struct ExactExport {
    pub schema_version: u32,
    pub operation: &'static str,
    pub reference_id: String,
    pub graph: GraphExport,
}

pub const EXPORT_HEADER_MESSAGE: &'static str = "exact export must use schema_version 1 and operation 'exact-export'";
pub const GRAPH_VERSION_MESSAGE: &'static str = "graph schema_version must be 1";

/// Why an exact export read back from its document form is not acceptable,
/// or `None` when it is: its header, its reference identifier, the graph's
/// own version, each record's version and each record's scope.
pub open spec fn export_problem(
    schema_version: u32,
    operation: Seq<char>,
    reference_id: Seq<char>,
    graph: GraphExportView,
) -> Option<Seq<char>> {
    if schema_version != 1 || operation != "exact-export"@ {
        Some(EXPORT_HEADER_MESSAGE@)
    } else if prefixed_hash_problem("reference_id"@, reference_id, REFERENCE_PREFIX@, 64) is Some {
        prefixed_hash_problem("reference_id"@, reference_id, REFERENCE_PREFIX@, 64)
    } else if graph.schema_version != 1 {
        Some(GRAPH_VERSION_MESSAGE@)
    } else if version_problem(graph) is Some {
        version_problem(graph)
    } else {
        scope_problem(graph, graph.scope.id)
    }
}

impl ExactExport {
    /// Checks an exact export read from its document form (version,
    /// operation, reference identifier and graph).
    pub fn validated(schema_version: u32, operation: String, reference_id: String, graph: GraphExport) -> (r: Result<
        ExactExport,
        GraphReferenceError,
    >)
        ensures
            match r {
                Ok(x) => export_problem(schema_version, operation@, reference_id@, graph@) is None
                    && x.schema_version == 1 && x.operation@ == "exact-export"@ && x.reference_id == reference_id
                    && x.graph == graph,
                Err(e) => export_problem(schema_version, operation@, reference_id@, graph@) matches Some(d)
                    && e@ == (ErrorView::Incomplete { detail: d }),
            },
    {
        proof {
            reveal_strlit("exact-export");
        }
        if schema_version != 1 || !crate::text::str_equal(operation.as_str(), "exact-export") {
            return Err(incomplete(String::from_str(EXPORT_HEADER_MESSAGE)));
        }
        validate_prefixed_hash("reference_id", reference_id.as_str(), REFERENCE_PREFIX, 64)?;
        if graph.schema_version != 1 {
            return Err(incomplete(String::from_str(GRAPH_VERSION_MESSAGE)));
        }
        graph.validate_schema_versions()?;
        validate_scope_ownership(&graph, graph.scope.id.as_str())?;
        Ok(ExactExport { schema_version: 1, operation: "exact-export", reference_id, graph })
    }
}

/// The error as plain text values.
pub enum ErrorView {
    Missing { detail: Seq<char> },
    Mismatched { field: Seq<char>, expected: Seq<char>, actual: Seq<char> },
    Incomplete { detail: Seq<char> },
}

impl View for GraphReferenceError {
    type V = ErrorView;

    open spec fn view(&self) -> ErrorView {
        match self {
            GraphReferenceError::Missing { detail } => ErrorView::Missing { detail: detail@ },
            GraphReferenceError::Mismatched { field, expected, actual } => ErrorView::Mismatched {
                field: field@,
                expected: expected@,
                actual: actual@,
            },
            GraphReferenceError::Incomplete { detail } => ErrorView::Incomplete { detail: detail@ },
        }
    }
}

/// The text of an error, as its users see it.
pub open spec fn error_text(e: ErrorView) -> Seq<char> {
    match e {
        ErrorView::Missing { detail } => "missing graph reference data: "@ + detail,
        ErrorView::Mismatched { field, expected, actual } => "mismatched graph reference "@ + field
            + ": expected "@ + expected + ", actual "@ + actual,
        ErrorView::Incomplete { detail } => "incomplete graph reference: "@ + detail,
    }
}

impl GraphReferenceError {
    /// The error's message.
    pub fn message(&self) -> (m: String)
        ensures
            m@ == error_text(self@),
    {
        proof {
            reveal_strlit("missing graph reference data: ");
            reveal_strlit("mismatched graph reference ");
            reveal_strlit(": expected ");
            reveal_strlit(", actual ");
            reveal_strlit("incomplete graph reference: ");
        }
        match self {
            GraphReferenceError::Missing { detail } => {
                let mut m = String::from_str("missing graph reference data: ");
                m.append(detail.as_str());
                m
            },
            GraphReferenceError::Mismatched { field, expected, actual } => {
                let mut m = String::from_str("mismatched graph reference ");
                m.append(field);
                m.append(": expected ");
                m.append(expected.as_str());
                m.append(", actual ");
                m.append(actual.as_str());
                m
            },
            GraphReferenceError::Incomplete { detail } => {
                let mut m = String::from_str("incomplete graph reference: ");
                m.append(detail.as_str());
                m
            },
        }
    }
}

fn incomplete(detail: String) -> (e: GraphReferenceError)
    ensures
        e@ == (ErrorView::Incomplete { detail: detail@ }),
{
    GraphReferenceError::Incomplete { detail }
}

fn mismatch(field: &'static str, expected: &str, actual: &str) -> (e: GraphReferenceError)
    ensures
        e@ == (ErrorView::Mismatched { field: field@, expected: expected@, actual: actual@ }),
{
    GraphReferenceError::Mismatched {
        field,
        expected: String::from_str(expected),
        actual: String::from_str(actual),
    }
}

// ---------------------------------------------------------------------------
// Hashing and identities.

/// The SHA-256 digest of a byte string.
pub uninterp spec fn sha256(bytes: Seq<u8>) -> Seq<u8>;

/// `sha2::Sha256::digest`: the digest of the bytes, which the crate fixes at
/// 32 bytes; the compression function itself is not written out.
#[verifier::external_body]
fn sha256_of(bytes: &[u8]) -> (d: Vec<u8>)
    ensures
        d@ == sha256(bytes@),
        d@.len() == 32,
{
    sha2::Sha256::digest(bytes).to_vec()
}

/// The digest of canonical graph bytes: `sha256:` and 64 hexadecimal digits.
pub open spec fn digest_of(canonical: Seq<u8>) -> Seq<char> {
    DIGEST_PREFIX@ + hex_of(sha256(canonical))
}

/// The text hashed into a reference identifier: the framing tag and the five
/// parts, each behind a NUL character.
pub open spec fn framed_identity(
    repository_id: Seq<char>,
    store_path: Seq<char>,
    scope: Seq<char>,
    commit: Seq<char>,
    graph_digest: Seq<char>,
) -> Seq<char> {
    IDENTITY_DOMAIN@ + seq!['\0'] + repository_id + seq!['\0'] + store_path + seq!['\0'] + scope
        + seq!['\0'] + commit + seq!['\0'] + graph_digest
}

/// The reference identifier of the five parts.
pub open spec fn identity_of(
    repository_id: Seq<char>,
    store_path: Seq<char>,
    scope: Seq<char>,
    commit: Seq<char>,
    graph_digest: Seq<char>,
) -> Seq<char> {
    REFERENCE_PREFIX@ + hex_of(
        sha256(encode_utf8(framed_identity(repository_id, store_path, scope, commit, graph_digest))),
    )
}

/// The digest of canonical graph bytes.
pub fn digest(canonical: &[u8]) -> (d: String)
    ensures
        d@ == digest_of(canonical@),
        sha256(canonical@).len() == 32,
{
    let hash = sha256_of(canonical);
    let mut d = String::from_str(DIGEST_PREFIX);
    push_hex(&mut d, hash.as_slice());
    d
}

/// The reference identifier of a repository, state path, scope, commit and
/// graph digest.
pub fn reference_identity(
    repository_id: &str,
    store_path: &str,
    scope: &str,
    commit: &str,
    graph_digest: &str,
) -> (id: String)
    ensures
        id@ == identity_of(repository_id@, store_path@, scope@, commit@, graph_digest@),
        sha256(encode_utf8(framed_identity(repository_id@, store_path@, scope@, commit@, graph_digest@))).len() == 32,
{
    let mut framed = String::from_str(IDENTITY_DOMAIN);
    framed.push('\0');
    framed.append(repository_id);
    framed.push('\0');
    framed.append(store_path);
    framed.push('\0');
    framed.append(scope);
    framed.push('\0');
    framed.append(commit);
    framed.push('\0');
    framed.append(graph_digest);
    let hash = sha256_of(framed.as_str().as_bytes());
    let mut id = String::from_str(REFERENCE_PREFIX);
    push_hex(&mut id, hash.as_slice());
    proof {
        assert(framed@ =~= framed_identity(repository_id@, store_path@, scope@, commit@, graph_digest@));
    }
    id
}

// ---------------------------------------------------------------------------
// Field checks.

/// An ASCII lowercase hexadecimal digit.
pub open spec fn lower_hex_byte(b: u8) -> bool {
    (0x30 <= b <= 0x39) || (0x61 <= b <= 0x66)
}

/// Every byte is a lowercase hexadecimal digit.
pub open spec fn all_lower_hex(b: Seq<u8>) -> bool {
    forall|i: int| 0 <= i < b.len() ==> lower_hex_byte(#[trigger] b[i])
}

/// `value` begins with the bytes of `prefix`.
pub open spec fn has_prefix(value: Seq<u8>, prefix: Seq<u8>) -> bool {
    prefix.len() <= value.len() && value.subrange(0, prefix.len() as int) == prefix
}

/// Why `value` is not `prefix` followed by exactly `digits` lowercase
/// hexadecimal digits, or `None` when it is.
pub open spec fn prefixed_hash_problem(field: Seq<char>, value: Seq<char>, prefix: Seq<char>, digits: nat) -> Option<Seq<char>> {
    let v = encode_utf8(value);
    let p = encode_utf8(prefix);
    if !has_prefix(v, p) {
        Some(field + " must start with '"@ + prefix + "'"@)
    } else if v.len() - p.len() != digits || !all_lower_hex(v.subrange(p.len() as int, v.len() as int)) {
        Some(field + " must contain "@ + decimal(digits) + " hexadecimal characters"@)
    } else {
        None
    }
}

/// Text made of white space only (the empty text included).
pub open spec fn blank(s: Seq<char>) -> bool {
    forall|i: int| 0 <= i < s.len() ==> whitespace(#[trigger] s[i])
}

/// Both parts of a correlation hold something besides white space.
pub open spec fn correlation_ok(c: ExternalCorrelation) -> bool {
    !blank(c.system@) && !blank(c.key@)
}

/// A commit is a full 40- or 64-digit lowercase hexadecimal object ID.
pub open spec fn commit_ok(commit: Seq<char>) -> bool {
    let b = encode_utf8(commit);
    (b.len() == 40 || b.len() == 64) && all_lower_hex(b)
}

fn is_lower_hex_digit(b: u8) -> (r: bool)
    ensures
        r == lower_hex_byte(b),
{
    (0x30 <= b && b <= 0x39) || (0x61 <= b && b <= 0x66)
}

fn all_lower_hex_from(b: &[u8], start: usize) -> (r: bool)
    requires
        start <= b@.len(),
    ensures
        r == all_lower_hex(b@.subrange(start as int, b@.len() as int)),
{
    let mut i = start;
    while i < b.len()
        invariant
            start <= i <= b@.len(),
            forall|j: int| start <= j < i ==> lower_hex_byte(#[trigger] b@[j]),
        decreases b@.len() - i,
    {
        if !is_lower_hex_digit(b[i]) {
            assert(!lower_hex_byte(b@.subrange(start as int, b@.len() as int)[i - start]));
            return false;
        }
        i = i + 1;
    }
    assert forall|j: int| 0 <= j < b@.len() - start implies lower_hex_byte(
        #[trigger] b@.subrange(start as int, b@.len() as int)[j],
    ) by {
        assert(b@.subrange(start as int, b@.len() as int)[j] == b@[start + j]);
    }
    true
}

fn is_blank(s: &str) -> (r: bool)
    ensures
        r == blank(s@),
{
    let (chars, _) = crate::text::decode(s);
    let mut i: usize = 0;
    while i < chars.len()
        invariant
            chars@ == s@,
            0 <= i <= chars@.len(),
            forall|j: int| 0 <= j < i ==> whitespace(#[trigger] chars@[j]),
        decreases chars@.len() - i,
    {
        if !crate::text::is_whitespace(chars[i]) {
            return false;
        }
        i = i + 1;
    }
    true
}

/// Checks that neither part of a correlation is blank.
pub fn validate_correlation(correlation: &ExternalCorrelation) -> (r: Result<(), GraphReferenceError>)
    ensures
        match r {
            Ok(_) => correlation_ok(*correlation),
            Err(e) => !correlation_ok(*correlation) && e@ == (ErrorView::Incomplete {
                detail: CORRELATION_MESSAGE@,
            }),
        },
{
    if is_blank(correlation.system.as_str()) || is_blank(correlation.key.as_str()) {
        return Err(incomplete(String::from_str(CORRELATION_MESSAGE)));
    }
    Ok(())
}

/// Checks that `value` is `prefix` followed by `digits` lowercase hexadecimal
/// digits.
pub fn validate_prefixed_hash(field: &str, value: &str, prefix: &str, digits: usize) -> (r: Result<(), GraphReferenceError>)
    ensures
        match r {
            Ok(_) => prefixed_hash_problem(field@, value@, prefix@, digits as nat) is None,
            Err(e) => prefixed_hash_problem(field@, value@, prefix@, digits as nat) matches Some(d)
                && e@ == (ErrorView::Incomplete { detail: d }),
        },
{
    proof {
        reveal_strlit(" must start with '");
        reveal_strlit("'");
        reveal_strlit(" must contain ");
        reveal_strlit(" hexadecimal characters");
    }
    let v = value.as_bytes();
    let p = prefix.as_bytes();
    let mut starts = p.len() <= v.len();
    let mut i: usize = 0;
    while starts && i < p.len()
        invariant
            starts ==> p@.len() <= v@.len(),
            0 <= i <= p@.len(),
            starts ==> forall|j: int| 0 <= j < i ==> v@[j] == p@[j],
            !starts ==> !has_prefix(v@, p@),
        decreases p@.len() - i + (if starts { 1int } else { 0int }),
    {
        if v[i] != p[i] {
            starts = false;
            assert(v@.subrange(0, p@.len() as int)[i as int] != p@[i as int]);
        } else {
            i = i + 1;
        }
    }
    if !starts {
        let mut detail = String::from_str(field);
        detail.append(" must start with '");
        detail.append(prefix);
        detail.append("'");
        return Err(incomplete(detail));
    }
    assert(v@.subrange(0, p@.len() as int) =~= p@);
    if v.len() - p.len() != digits || !all_lower_hex_from(v, p.len()) {
        let mut detail = String::from_str(field);
        detail.append(" must contain ");
        push_decimal(&mut detail, digits as u64);
        detail.append(" hexadecimal characters");
        return Err(incomplete(detail));
    }
    Ok(())
}

/// Why a parsed reference is not well formed, or `None` when it is.
/// `scope_check` is what the scope-identifier rules said of its scope.
pub open spec fn reference_problem(reference: GraphReference, scope_check: Result<(), Seq<char>>) -> Option<Seq<char>> {
    if reference.schema_version != 1 {
        Some("unsupported schema_version "@ + decimal(reference.schema_version as nat) + "; expected 1"@)
    } else if prefixed_hash_problem("reference_id"@, reference.reference_id@, REFERENCE_PREFIX@, 64) is Some {
        prefixed_hash_problem("reference_id"@, reference.reference_id@, REFERENCE_PREFIX@, 64)
    } else if prefixed_hash_problem("repository_id"@, reference.repository_id@, REPOSITORY_PREFIX@, 64) is Some {
        prefixed_hash_problem("repository_id"@, reference.repository_id@, REPOSITORY_PREFIX@, 64)
    } else if reference.store_path@ != STORE_PATH@ {
        Some(STORE_PATH_MESSAGE@)
    } else if scope_check is Err {
        Some(scope_check->Err_0)
    } else if !commit_ok(reference.commit@) {
        Some(COMMIT_MESSAGE@)
    } else if prefixed_hash_problem("graph_digest"@, reference.graph_digest@, DIGEST_PREFIX@, 64) is Some {
        prefixed_hash_problem("graph_digest"@, reference.graph_digest@, DIGEST_PREFIX@, 64)
    } else if reference.correlation matches Some(c) && !correlation_ok(c) {
        Some(CORRELATION_MESSAGE@)
    } else {
        None
    }
}

fn commit_is_object_id(commit: &str) -> (r: bool)
    ensures
        r == commit_ok(commit@),
{
    let b = commit.as_bytes();
    let ok = (b.len() == 40 || b.len() == 64) && all_lower_hex_from(b, 0);
    assert(b@.subrange(0, b@.len() as int) =~= b@);
    ok
}

impl GraphReference {
    /// Checks a reference read from its JSON form: schema version 1, well-formed
    /// identifiers and digest, the fixed state path, an accepted scope, a full
    /// commit ID and a non-blank correlation. `scope_check` carries what the
    /// scope-identifier rules said of `scope_id`, its error as text.
    pub fn validated(self, scope_check: Result<(), String>) -> (r: Result<GraphReference, GraphReferenceError>)
        ensures
            match r {
                Ok(g) => g == self && reference_problem(self, match scope_check {
                    Ok(_) => Ok(()),
                    Err(s) => Err(s@),
                }) is None,
                Err(e) => reference_problem(self, match scope_check {
                    Ok(_) => Ok(()),
                    Err(s) => Err(s@),
                }) matches Some(d) && e@ == (ErrorView::Incomplete { detail: d }),
            },
    {
        proof {
            reveal_strlit("unsupported schema_version ");
            reveal_strlit("; expected 1");
        }
        if self.schema_version != 1 {
            let mut detail = String::from_str("unsupported schema_version ");
            push_decimal(&mut detail, self.schema_version as u64);
            detail.append("; expected 1");
            return Err(incomplete(detail));
        }
        validate_prefixed_hash("reference_id", self.reference_id.as_str(), REFERENCE_PREFIX, 64)?;
        validate_prefixed_hash("repository_id", self.repository_id.as_str(), REPOSITORY_PREFIX, 64)?;
        if !crate::text::str_equal(self.store_path.as_str(), STORE_PATH) {
            return Err(incomplete(String::from_str(STORE_PATH_MESSAGE)));
        }
        if let Err(detail) = scope_check {
            return Err(incomplete(detail));
        }
        if !commit_is_object_id(self.commit.as_str()) {
            return Err(incomplete(String::from_str(COMMIT_MESSAGE)));
        }
        validate_prefixed_hash("graph_digest", self.graph_digest.as_str(), DIGEST_PREFIX, 64)?;
        if let Some(correlation) = &self.correlation {
            validate_correlation(correlation)?;
        }
        Ok(self)
    }
}

// ---------------------------------------------------------------------------
// Issuing and verifying against a repository.

/// The scope's graph as read from one tree: its records and their canonical
/// bytes.
pub struct ProjectedGraph {
    pub canonical: Vec<u8>,
    pub graph: GraphExport,
}

/// What the repository gave while a reference was being issued, each step's
/// outcome in the order the steps are taken.
pub struct IssueReading {
    /// The commit the requested revision (or `HEAD`) resolved to.
    pub commit: Result<String, GraphReferenceError>,
    /// The canonical bytes of the scope's graph at that commit.
    pub committed: Result<Vec<u8>, GraphReferenceError>,
    /// The canonical bytes of the scope's graph in the index (read for an
    /// implicit `HEAD` only).
    pub index: Result<Vec<u8>, GraphReferenceError>,
    /// The canonical bytes of the scope's graph in the working tree (read for
    /// an implicit `HEAD` only).
    pub worktree: Result<Vec<u8>, GraphReferenceError>,
    /// The repository identity at the commit.
    pub repository_id: Result<String, GraphReferenceError>,
}

/// What the repository gave while a reference was being checked, each step's
/// outcome in the order the steps are taken.
pub struct CommitReading {
    /// The commit the reference's commit resolved to.
    pub commit: Result<String, GraphReferenceError>,
    /// The repository identity at that commit.
    pub repository_id: Result<String, GraphReferenceError>,
    /// The scope's graph at that commit.
    pub graph: Result<ProjectedGraph, GraphReferenceError>,
}

/// The refusal of an implicit `HEAD` over a dirty scope.
pub open spec fn dirty_message(scope: Seq<char>) -> Seq<char> {
    "implicit HEAD requires clean canonical state for scope '"@ + scope
        + "'; commit graph changes first"@
}

/// The first step at which issuing fails, as the error it gives, or `None`
/// when every step succeeds. `implicit_head` is whether no revision was given.
pub open spec fn issue_failure(
    scope: Seq<char>,
    implicit_head: bool,
    correlation: Option<ExternalCorrelation>,
    reading: IssueReading,
) -> Option<ErrorView> {
    if correlation matches Some(c) && !correlation_ok(c) {
        Some(ErrorView::Incomplete { detail: CORRELATION_MESSAGE@ })
    } else if reading.commit is Err {
        Some(reading.commit->Err_0@)
    } else if reading.committed is Err {
        Some(reading.committed->Err_0@)
    } else if implicit_head && reading.index is Err {
        Some(reading.index->Err_0@)
    } else if implicit_head && reading.worktree is Err {
        Some(reading.worktree->Err_0@)
    } else if implicit_head && (reading.committed->Ok_0@ != reading.index->Ok_0@
        || reading.committed->Ok_0@ != reading.worktree->Ok_0@) {
        Some(ErrorView::Incomplete { detail: dirty_message(scope) })
    } else if reading.repository_id is Err {
        Some(reading.repository_id->Err_0@)
    } else {
        None
    }
}

/// The reference issued for `scope` from successful readings.
pub open spec fn issued(
    reference: GraphReference,
    scope: Seq<char>,
    correlation: Option<ExternalCorrelation>,
    reading: IssueReading,
) -> bool {
    let commit = reading.commit->Ok_0@;
    let repository_id = reading.repository_id->Ok_0@;
    let graph_digest = digest_of(reading.committed->Ok_0@);
    &&& reference.schema_version == 1
    &&& reference.reference_id@ == identity_of(repository_id, STORE_PATH@, scope, commit, graph_digest)
    &&& reference.repository_id@ == repository_id
    &&& reference.store_path@ == STORE_PATH@
    &&& reference.scope_id@ == scope
    &&& reference.commit@ == commit
    &&& reference.graph_digest@ == graph_digest
    &&& reference.correlation == correlation
    &&& sha256(reading.committed->Ok_0@).len() == 32
    &&& sha256(encode_utf8(framed_identity(repository_id, STORE_PATH@, scope, commit, graph_digest))).len() == 32
}

/// The first check that a reference fails against what the repository gave,
/// as the error it gives, or `None` when the reference holds.
pub open spec fn load_failure(reference: GraphReference, reading: CommitReading) -> Option<ErrorView> {
    let commit = reading.commit->Ok_0@;
    let repository_id = reading.repository_id->Ok_0@;
    let graph_digest = digest_of(reading.graph->Ok_0.canonical@);
    let identity = identity_of(repository_id, STORE_PATH@, reference.scope_id@, commit, graph_digest);
    if reference.store_path@ != STORE_PATH@ {
        Some(ErrorView::Mismatched { field: "store_path"@, expected: STORE_PATH@, actual: reference.store_path@ })
    } else if reading.commit is Err {
        Some(reading.commit->Err_0@)
    } else if commit != reference.commit@ {
        Some(ErrorView::Mismatched { field: "commit"@, expected: reference.commit@, actual: commit })
    } else if reading.repository_id is Err {
        Some(reading.repository_id->Err_0@)
    } else if repository_id != reference.repository_id@ {
        Some(ErrorView::Mismatched { field: "repository_id"@, expected: reference.repository_id@, actual: repository_id })
    } else if reading.graph is Err {
        Some(reading.graph->Err_0@)
    } else if graph_digest != reference.graph_digest@ {
        Some(ErrorView::Mismatched { field: "graph_digest"@, expected: reference.graph_digest@, actual: graph_digest })
    } else if identity != reference.reference_id@ {
        Some(ErrorView::Mismatched { field: "reference_id"@, expected: reference.reference_id@, actual: identity })
    } else {
        None
    }
}

/// Issues and checks graph references for one repository. The repository work
/// (resolving revisions, reading trees, projecting and serializing a scope's
/// graph) is done by the caller, which hands each method what it read.
pub struct GraphReferences {
    pub repository_root: String,
}

impl GraphReferences {
    /// References for the repository at `repository_root`.
    pub fn for_repository(repository_root: String) -> (r: GraphReferences)
        ensures
            r.repository_root == repository_root,
    {
        GraphReferences { repository_root }
    }

    /// Issues a reference to the graph of `scope` at `revision`, or at `HEAD`
    /// when no revision is given; an implicit `HEAD` also needs the index and
    /// the working tree to hold the same canonical graph.
    pub fn issue(
        &self,
        scope: &str,
        revision: Option<&str>,
        correlation: Option<ExternalCorrelation>,
        reading: IssueReading,
    ) -> (r: Result<GraphReference, GraphReferenceError>)
        ensures
            match r {
                Ok(g) => issue_failure(scope@, revision is None, correlation, reading) is None
                    && issued(g, scope@, correlation, reading),
                Err(e) => issue_failure(scope@, revision is None, correlation, reading) == Some(e@),
            },
    {
        proof {
            reveal_strlit("implicit HEAD requires clean canonical state for scope '");
            reveal_strlit("'; commit graph changes first");
        }
        if let Some(c) = &correlation {
            validate_correlation(c)?;
        }
        let implicit_head = revision.is_none();
        let IssueReading { commit, committed, index, worktree, repository_id } = reading;
        let commit = commit?;
        let committed = committed?;
        if implicit_head {
            let index = index?;
            let worktree = worktree?;
            if !bytes_equal(committed.as_slice(), index.as_slice())
                || !bytes_equal(committed.as_slice(), worktree.as_slice()) {
                let mut detail = String::from_str("implicit HEAD requires clean canonical state for scope '");
                detail.append(scope);
                detail.append("'; commit graph changes first");
                return Err(incomplete(detail));
            }
        }
        let repository_id = repository_id?;
        let graph_digest = digest(committed.as_slice());
        let reference_id = reference_identity(
            repository_id.as_str(),
            STORE_PATH,
            scope,
            commit.as_str(),
            graph_digest.as_str(),
        );
        Ok(GraphReference {
            schema_version: 1,
            reference_id,
            repository_id,
            store_path: String::from_str(STORE_PATH),
            scope_id: String::from_str(scope),
            commit,
            graph_digest,
            correlation,
        })
    }

    /// The reference with the record counts of its graph, once the reference is
    /// checked against the repository.
    pub fn show(&self, reference: &GraphReference, reading: CommitReading) -> (r: Result<GraphReferenceSummary, GraphReferenceError>)
        ensures
            match r {
                Ok(summary) => load_failure(*reference, reading) is None
                    && summary.schema_version == 1
                    && summary.operation@ == "show"@
                    && summary.reference == *reference
                    && counts_of(summary.counts, reading.graph->Ok_0.graph@),
                Err(e) => load_failure(*reference, reading) == Some(e@),
            },
    {
        proof {
            reveal_strlit("show");
        }
        let graph = verify_and_load(reference, reading)?;
        Ok(GraphReferenceSummary {
            schema_version: 1,
            operation: "show",
            reference: clone_reference(reference),
            counts: GraphCounts::of(&graph.graph),
        })
    }

    /// Whether the reference still resolves to the graph it names.
    pub fn verify(&self, reference: &GraphReference, reading: CommitReading) -> (r: Result<Verification, GraphReferenceError>)
        ensures
            match r {
                Ok(v) => load_failure(*reference, reading) is None
                    && v.schema_version == 1
                    && v.operation@ == "verify"@
                    && v.valid
                    && v.reference_id@ == reference.reference_id@,
                Err(e) => load_failure(*reference, reading) == Some(e@),
            },
    {
        proof {
            reveal_strlit("verify");
        }
        verify_and_load(reference, reading)?;
        Ok(Verification {
            schema_version: 1,
            operation: "verify",
            valid: true,
            reference_id: reference.reference_id.clone(),
        })
    }
}

impl GraphReferences {
    /// The graph the reference names, once the reference is checked against
    /// the repository.
    pub fn exact_export(&self, reference: &GraphReference, reading: CommitReading) -> (r: Result<
        ExactExport,
        GraphReferenceError,
    >)
        ensures
            match r {
                Ok(x) => load_failure(*reference, reading) is None
                    && x.schema_version == 1
                    && x.operation@ == "exact-export"@
                    && x.reference_id@ == reference.reference_id@
                    && x.graph == reading.graph->Ok_0.graph,
                Err(e) => load_failure(*reference, reading) == Some(e@),
            },
    {
        proof {
            reveal_strlit("exact-export");
        }
        let loaded = verify_and_load(reference, reading)?;
        Ok(ExactExport {
            schema_version: 1,
            operation: "exact-export",
            reference_id: reference.reference_id.clone(),
            graph: loaded.graph,
        })
    }
}

fn bytes_equal(a: &[u8], b: &[u8]) -> (r: bool)
    ensures
        r == (a@ == b@),
{
    if a.len() != b.len() {
        return false;
    }
    let mut i: usize = 0;
    while i < a.len()
        invariant
            a@.len() == b@.len(),
            0 <= i <= a@.len(),
            forall|j: int| 0 <= j < i ==> a@[j] == b@[j],
        decreases a@.len() - i,
    {
        if a[i] != b[i] {
            return false;
        }
        i = i + 1;
    }
    assert(a@ =~= b@);
    true
}

fn clone_correlation(c: &ExternalCorrelation) -> (r: ExternalCorrelation)
    ensures
        r == *c,
{
    ExternalCorrelation { system: c.system.clone(), key: c.key.clone() }
}

fn clone_reference(g: &GraphReference) -> (r: GraphReference)
    ensures
        r == *g,
{
    GraphReference {
        schema_version: g.schema_version,
        reference_id: g.reference_id.clone(),
        repository_id: g.repository_id.clone(),
        store_path: g.store_path.clone(),
        scope_id: g.scope_id.clone(),
        commit: g.commit.clone(),
        graph_digest: g.graph_digest.clone(),
        correlation: match &g.correlation {
            Some(c) => Some(clone_correlation(c)),
            None => None,
        },
    }
}

fn verify_and_load(reference: &GraphReference, reading: CommitReading) -> (r: Result<ProjectedGraph, GraphReferenceError>)
    ensures
        match r {
            Ok(graph) => load_failure(*reference, reading) is None && graph == reading.graph->Ok_0,
            Err(e) => load_failure(*reference, reading) == Some(e@),
        },
{
    if !crate::text::str_equal(reference.store_path.as_str(), STORE_PATH) {
        return Err(mismatch("store_path", STORE_PATH, reference.store_path.as_str()));
    }
    let CommitReading { commit, repository_id, graph } = reading;
    let commit = commit?;
    if !crate::text::str_equal(commit.as_str(), reference.commit.as_str()) {
        return Err(mismatch("commit", reference.commit.as_str(), commit.as_str()));
    }
    let repository_id = repository_id?;
    if !crate::text::str_equal(repository_id.as_str(), reference.repository_id.as_str()) {
        return Err(mismatch("repository_id", reference.repository_id.as_str(), repository_id.as_str()));
    }
    let graph = graph?;
    let graph_digest = digest(graph.canonical.as_slice());
    if !crate::text::str_equal(graph_digest.as_str(), reference.graph_digest.as_str()) {
        return Err(mismatch("graph_digest", reference.graph_digest.as_str(), graph_digest.as_str()));
    }
    let identity = reference_identity(
        repository_id.as_str(),
        STORE_PATH,
        reference.scope_id.as_str(),
        commit.as_str(),
        graph_digest.as_str(),
    );
    if !crate::text::str_equal(identity.as_str(), reference.reference_id.as_str()) {
        return Err(mismatch("reference_id", reference.reference_id.as_str(), identity.as_str()));
    }
    Ok(graph)
}

// ---------------------------------------------------------------------------
// Laws.

/// What the repository gives for the commit a reference was issued at, when
/// it still holds what it held at issue time.
pub open spec fn reading_at_issue(reading: IssueReading, graph: GraphExport) -> CommitReading {
    CommitReading {
        commit: reading.commit,
        repository_id: reading.repository_id,
        graph: Ok(ProjectedGraph { canonical: reading.committed->Ok_0, graph: graph }),
    }
}

/// A reference pins its graph: a reference issued from what the repository
/// gave verifies, and shows, against the same commit as long as the
/// repository still gives the same commit, identity and graph.
pub proof fn law_issued_reference_verifies(
    scope: Seq<char>,
    implicit_head: bool,
    correlation: Option<ExternalCorrelation>,
    reading: IssueReading,
    reference: GraphReference,
    graph: GraphExport,
)
    requires
        issue_failure(scope, implicit_head, correlation, reading) is None,
        issued(reference, scope, correlation, reading),
    ensures
        load_failure(reference, reading_at_issue(reading, graph)) is None,
{
}

/// The UTF-8 encoding of a concatenation is the concatenation of the
/// encodings.
proof fn lemma_encode_utf8_append(a: Seq<char>, b: Seq<char>)
    ensures
        encode_utf8(a + b) == encode_utf8(a) + encode_utf8(b),
    decreases a.len(),
{
    if a.len() == 0 {
        assert(a + b =~= b);
        assert(encode_utf8(a) + encode_utf8(b) =~= encode_utf8(b));
    } else {
        assert((a + b)[0] == a[0]);
        assert((a + b).drop_first() =~= a.drop_first() + b);
        lemma_encode_utf8_append(a.drop_first(), b);
        assert(encode_scalar(a[0] as u32) + (encode_utf8(a.drop_first()) + encode_utf8(b)) =~= (encode_scalar(
            a[0] as u32,
        ) + encode_utf8(a.drop_first())) + encode_utf8(b));
    }
}

/// A hexadecimal digit encodes as its one ASCII byte.
proof fn lemma_hex_digit_encoding(n: int)
    requires
        0 <= n < 16,
    ensures
        encode_utf8(seq![hex_digit(n)]).len() == 1,
        lower_hex_byte(encode_utf8(seq![hex_digit(n)])[0]),
{
    let v = hex_digit(n) as u32;
    assert(v <= 0x7F);
    assert(v & 0x7F == v) by (bit_vector)
        requires
            v <= 0x7F,
    ;
    let c = seq![hex_digit(n)];
    assert(c.drop_first() =~= Seq::<char>::empty());
    assert(encode_utf8(c.drop_first()) == Seq::<u8>::empty());
    assert(encode_scalar(v) == seq![(v & 0x7F) as u8]);
    assert(encode_utf8(c) =~= seq![(v & 0x7F) as u8]);
}

/// The hexadecimal form of `b` encodes as two lowercase hexadecimal bytes
/// per byte of `b`.
proof fn lemma_hex_encoding(b: Seq<u8>)
    ensures
        encode_utf8(hex_of(b)).len() == 2 * b.len(),
        all_lower_hex(encode_utf8(hex_of(b))),
    decreases b.len(),
{
    if b.len() > 0 {
        let hi = hex_digit((b.last() / 16) as int);
        let lo = hex_digit((b.last() % 16) as int);
        lemma_hex_encoding(b.drop_last());
        lemma_hex_digit_encoding((b.last() / 16) as int);
        lemma_hex_digit_encoding((b.last() % 16) as int);
        assert(seq![hi, lo] =~= seq![hi] + seq![lo]);
        lemma_encode_utf8_append(seq![hi], seq![lo]);
        lemma_encode_utf8_append(hex_of(b.drop_last()), seq![hi, lo]);
        let front = encode_utf8(hex_of(b.drop_last()));
        let back = encode_utf8(seq![hi, lo]);
        assert forall|i: int| 0 <= i < (front + back).len() implies lower_hex_byte(#[trigger] (front + back)[i]) by {
            if i < front.len() {
                assert((front + back)[i] == front[i]);
            } else if i == front.len() {
                assert((front + back)[i] == encode_utf8(seq![hi])[0]);
            } else {
                assert((front + back)[i] == encode_utf8(seq![lo])[0]);
            }
        }
    }
}

/// A prefix followed by the hexadecimal form of 32 bytes is a well-formed
/// prefixed hash.
proof fn lemma_prefixed_hex(field: Seq<char>, prefix: Seq<char>, h: Seq<u8>)
    requires
        h.len() == 32,
    ensures
        prefixed_hash_problem(field, prefix + hex_of(h), prefix, 64) is None,
{
    lemma_encode_utf8_append(prefix, hex_of(h));
    lemma_hex_encoding(h);
    let v = encode_utf8(prefix + hex_of(h));
    let p = encode_utf8(prefix);
    assert(v.subrange(0, p.len() as int) =~= p);
    assert(v.subrange(p.len() as int, v.len() as int) =~= encode_utf8(hex_of(h)));
}

/// A reference issued from a repository whose identity is well formed and
/// whose commit is a full object ID, with a usable correlation if any,
/// passes every check that a reference read back from its JSON form faces
/// (for a scope the scope rules accept).
pub proof fn law_issued_reference_passes_import_checks(
    reference: GraphReference,
    scope: Seq<char>,
    correlation: Option<ExternalCorrelation>,
    reading: IssueReading,
)
    requires
        issued(reference, scope, correlation, reading),
        commit_ok(reading.commit->Ok_0@),
        prefixed_hash_problem("repository_id"@, reading.repository_id->Ok_0@, REPOSITORY_PREFIX@, 64) is None,
        correlation matches Some(c) ==> correlation_ok(c),
    ensures
        reference_problem(reference, Ok(())) is None,
{
    let commit = reading.commit->Ok_0@;
    let repository_id = reading.repository_id->Ok_0@;
    let graph_digest = digest_of(reading.committed->Ok_0@);
    lemma_prefixed_hex(
        "reference_id"@,
        REFERENCE_PREFIX@,
        sha256(encode_utf8(framed_identity(repository_id, STORE_PATH@, scope, commit, graph_digest))),
    );
    lemma_prefixed_hex("graph_digest"@, DIGEST_PREFIX@, sha256(reading.committed->Ok_0@));
}

} // verus!
