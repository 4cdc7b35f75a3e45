//! Finds provenance annotations and rule bindings in source files.
pub mod bindings;
pub mod chars;
pub mod confidence;
pub mod parser;
pub mod rust_lines;
pub mod string_context;
pub mod validate;
pub mod walker;

use vstd::prelude::*;

verus! {

/// A source language the scanner reads.
#[derive(Clone, Copy, Debug, PartialEq, Eq, Structural)]
pub enum Language {
    Rust,
    Python,
    JavaScript,
    TypeScript,
    Java,
    Go,
}

/// The language of a file extension.
pub open spec fn language_of(ext: Seq<char>) -> Option<Language> {
    if ext == "rs"@ {
        Some(Language::Rust)
    } else if ext == "py"@ {
        Some(Language::Python)
    } else if ext == "js"@ || ext == "jsx"@ {
        Some(Language::JavaScript)
    } else if ext == "ts"@ || ext == "tsx"@ {
        Some(Language::TypeScript)
    } else if ext == "java"@ {
        Some(Language::Java)
    } else if ext == "go"@ {
        Some(Language::Go)
    } else {
        None
    }
}

impl Language {
    pub fn from_extension(ext: &str) -> (r: Option<Language>)
        ensures
            r == language_of(ext@),
    {
        if crate::text::str_equal(ext, "rs") {
            Some(Language::Rust)
        } else if crate::text::str_equal(ext, "py") {
            Some(Language::Python)
        } else if crate::text::str_equal(ext, "js") || crate::text::str_equal(ext, "jsx") {
            Some(Language::JavaScript)
        } else if crate::text::str_equal(ext, "ts") || crate::text::str_equal(ext, "tsx") {
            Some(Language::TypeScript)
        } else if crate::text::str_equal(ext, "java") {
            Some(Language::Java)
        } else if crate::text::str_equal(ext, "go") {
            Some(Language::Go)
        } else {
            None
        }
    }
}


/// Directories holding dependencies, build output or repository metadata.
pub open spec fn excluded_directory(name: Seq<char>) -> bool {
    name == "node_modules"@ || name == "target"@ || name == ".git"@
}

/// Whether a walk of a source tree skips the directory `name` found
/// `depth` levels below the tree's root: a dependency, build or metadata
/// directory is skipped unless it is the root the walk was asked for.
pub fn skips_directory(name: &str, depth: usize) -> (r: bool)
    ensures
        r == (depth > 0 && excluded_directory(name@)),
{
    proof {
        reveal_strlit("node_modules");
        reveal_strlit("target");
        reveal_strlit(".git");
    }
    depth > 0 && (crate::text::str_equal(name, "node_modules") || crate::text::str_equal(name, "target")
        || crate::text::str_equal(name, ".git"))
}

} // verus!
