//! Merging record shards three ways, and the check a merged shard faces.
pub mod records;

use vstd::prelude::*;

verus! {

/// How the two sides of a merge disagree about one record.
#[derive(Clone, Copy, Debug, PartialEq, Eq, Structural)]
pub enum MergeConflictKind {
    DivergentEdit,
    DeleteModify,
}

/// The record type a shard holds, read off the repository path of the file
/// being merged.
///
/// The path is the only thing the merge driver knows about the file: git
/// hands the driver three temporary files, so only the merged-result path
/// names the shard. Every state shard sits in a directory named after its
/// family.
#[derive(Clone, Copy, Debug, PartialEq, Eq, Structural)]
pub enum ShardFamily {
    /// `.provenance/state/edges/*.jsonl`
    Edges,
    /// Any other path, including the per-scope record families and files
    /// outside the state directory. Merged records pass unchecked.
    Unrecognized,
}

/// What `camino::Utf8Path::parent` gives for a path, as text: the path
/// without its last component, or `None` for a root or an empty path. The
/// answer follows the path syntax of the target the library is built for,
/// which is fixed for a build; it is named here, not spelled out.
pub uninterp spec fn parent_of(path: Seq<char>) -> Option<Seq<char>>;

/// What `camino::Utf8Path::file_name` gives for a path: its last normal
/// component, if it has one. Named for the same reason as `parent_of`.
pub uninterp spec fn file_name_of(path: Seq<char>) -> Option<Seq<char>>;

/// `camino::Utf8Path::parent`, as text.
#[verifier::external_body]
pub(crate) fn path_parent(path: &str) -> (r: Option<String>)
    ensures
        match r {
            Some(p) => parent_of(path@) == Some(p@),
            None => parent_of(path@) is None,
        },
{
    camino::Utf8Path::new(path).parent().map(|p| p.as_str().to_string())
}

/// `camino::Utf8Path::file_name`, as text.
#[verifier::external_body]
pub(crate) fn path_file_name(path: &str) -> (r: Option<String>)
    ensures
        match r {
            Some(n) => file_name_of(path@) == Some(n@),
            None => file_name_of(path@) is None,
        },
{
    camino::Utf8Path::new(path).file_name().map(|n| n.to_string())
}

/// The family of the shard stored at `path`: read from the name of its
/// directory and of the directory above that.
pub open spec fn family_at(path: Seq<char>) -> ShardFamily {
    match parent_of(path) {
        None => ShardFamily::Unrecognized,
        Some(directory) => family_of(
            file_name_of(directory),
            match parent_of(directory) {
                Some(above) => file_name_of(above),
                None => None,
            },
        ),
    }
}

/// The family named by the last two directory names of a shard path: the
/// name of the shard's directory and the name of the directory above it.
pub open spec fn family_of(directory_name: Option<Seq<char>>, parent_name: Option<Seq<char>>) -> ShardFamily {
    if directory_name == Some("edges"@) && parent_name == Some("state"@) {
        ShardFamily::Edges
    } else {
        ShardFamily::Unrecognized
    }
}

impl ShardFamily {
    /// The family from the names of the shard's directory and of the
    /// directory above it.
    pub fn from_directory_names(directory_name: Option<&str>, parent_name: Option<&str>) -> (r: ShardFamily)
        ensures
            r == family_of(
                match directory_name {
                    Some(n) => Some(n@),
                    None => None,
                },
                match parent_name {
                    Some(n) => Some(n@),
                    None => None,
                },
            ),
    {
        let in_state = match parent_name {
            Some(n) => crate::text::str_equal(n, "state"),
            None => false,
        };
        let is_edges = match directory_name {
            Some(n) => crate::text::str_equal(n, "edges"),
            None => false,
        };
        if in_state && is_edges {
            ShardFamily::Edges
        } else {
            ShardFamily::Unrecognized
        }
    }

    /// Recognizes the family from the path the merged result will be stored
    /// at. Only the last two directory names are read, so an absolute path,
    /// a repository-relative path and a path inside a test fixture all
    /// resolve the same way.
    pub fn for_shard_path(path: &str) -> (r: ShardFamily)
        ensures
            r == family_at(path@),
    {
        let directory = match path_parent(path) {
            Some(d) => d,
            None => {
                return ShardFamily::Unrecognized;
            },
        };
        let directory_name = path_file_name(directory.as_str());
        let parent_name = match path_parent(directory.as_str()) {
            Some(p) => path_file_name(p.as_str()),
            None => None,
        };
        ShardFamily::from_directory_names(
            match &directory_name {
                Some(n) => Some(n.as_str()),
                None => None,
            },
            match &parent_name {
                Some(n) => Some(n.as_str()),
                None => None,
            },
        )
    }
}

} // verus!
