//! The parsed form of a metadata file: program pairs, each a C program and
//! its Rust counterpart.

use vstd::prelude::*;
use crate::text::views;

verus! {

/// The program pairs of one metadata file.
pub struct Metadata {
    pub pairs: Vec<ProgramPair>,
}

/// A C program and its Rust counterpart.
pub struct ProgramPair {
    pub program_name: String,
    pub program_description: String,
    pub translation_tools: Vec<String>,
    pub feature_relationship: Features,
    pub c_program: Program,
    pub rust_program: Program,
}

/// One program of a pair.
pub struct Program {
    pub language: Language,
    pub documentation_url: String,
    pub repository_url: String,
    pub source_paths: Vec<String>,
}

/// How the features of the Rust program relate to those of the C program.
#[derive(Clone, Copy, Debug, PartialEq, Eq, Structural)]
pub enum Features {
    RustSubsetOfC,
    RustEquivalentToC,
    RustSupersetOfC,
    Overlapping,
}

/// The language a program is written in.
#[derive(Clone, Copy, Debug, PartialEq, Eq, Structural)]
pub enum Language {
    C,
    Rust,
}

impl Language {
    /// The lower-case name of the language: `"c"` or `"rust"`.
    pub fn to_str(&self) -> (r: &'static str)
        ensures
            *self == Language::C ==> r@ == "c"@,
            *self == Language::Rust ==> r@ == "rust"@,
    {
        match self {
            Language::C => "c",
            Language::Rust => "rust",
        }
    }
}

/// A copy of a list of strings.
pub fn clone_strings(v: &Vec<String>) -> (r: Vec<String>)
    ensures
        views(r@) == views(v@),
{
    let mut r: Vec<String> = Vec::new();
    let mut i: usize = 0;
    while i < v.len()
        invariant
            i <= v.len(),
            r.len() == i,
            views(r@) == views(v@).subrange(0, i as int),
        decreases v.len() - i,
    {
        let s = v[i].clone();
        r.push(s);
        assert(r@[i as int] == v@[i as int]);
        assert(views(r@) =~= views(v@).subrange(0, i + 1));
        i = i + 1;
    }
    assert(views(v@).subrange(0, i as int) =~= views(v@));
    r
}

} // verus!
