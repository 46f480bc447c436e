//! Turning the two shapes of metadata file into [`Metadata`].
//!
//! An individual metadata file describes each pair in full; a project
//! metadata file gives the tools, the feature relationship and the
//! repositories once, for all of its pairs.

use vstd::prelude::*;
use crate::schema::{clone_strings, Features, Language, Metadata, Program, ProgramPair};
use crate::text::views;

verus! {

/// How the features of the Rust program relate to those of the C program,
/// as a metadata file states it.
#[derive(Clone, Copy, Debug, PartialEq, Eq, Structural)]
pub enum FeatureRelationship {
    RustSubsetOfC,
    RustSupersetOfC,
    RustEquivalentToC,
    Overlapping,
}

/// A program of an individual pair.
pub struct IndividualProgram {
    pub documentation_url: String,
    pub repository_url: String,
    pub source_paths: Vec<String>,
}

/// A pair of an individual metadata file.
pub struct IndividualProgramPair {
    pub program_name: String,
    pub program_description: String,
    pub translation_tools: Vec<String>,
    pub feature_relationship: FeatureRelationship,
    pub c_program: IndividualProgram,
    pub rust_program: IndividualProgram,
}

/// The source paths of a program of a project pair.
pub struct ProjectProgram {
    pub source_paths: Vec<String>,
}

/// A pair of a project metadata file.
pub struct ProjectProgramPair {
    pub program_name: String,
    pub program_description: String,
    pub c_program: ProjectProgram,
    pub rust_program: ProjectProgram,
}

/// Where a project's program lives.
pub struct ProjectRepository {
    pub documentation_url: String,
    pub repository_url: String,
}

/// What a project metadata file states once for all of its pairs.
pub struct ProjectPairsMetadataProjectInformation {
    pub translation_tools: Vec<String>,
    pub feature_relationship: FeatureRelationship,
    pub c_program: ProjectRepository,
    pub rust_program: ProjectRepository,
}

/// The feature relationship of the parsed schema that `f` stands for.
pub open spec fn features_of(f: FeatureRelationship) -> Features {
    match f {
        FeatureRelationship::RustSubsetOfC => Features::RustSubsetOfC,
        FeatureRelationship::RustSupersetOfC => Features::RustSupersetOfC,
        FeatureRelationship::RustEquivalentToC => Features::RustEquivalentToC,
        FeatureRelationship::Overlapping => Features::Overlapping,
    }
}

/// Whether `p` is a program in `language` with the given fields.
pub open spec fn program_is(
    p: Program,
    language: Language,
    documentation_url: Seq<char>,
    repository_url: Seq<char>,
    source_paths: Seq<Seq<char>>,
) -> bool {
    &&& p.language == language
    &&& p.documentation_url@ == documentation_url
    &&& p.repository_url@ == repository_url
    &&& views(p.source_paths@) == source_paths
}

/// Whether `q` is the parsed form of the individual pair `p`.
pub open spec fn individual_parsed(p: IndividualProgramPair, q: ProgramPair) -> bool {
    &&& q.program_name@ == p.program_name@
    &&& q.program_description@ == p.program_description@
    &&& views(q.translation_tools@) == views(p.translation_tools@)
    &&& q.feature_relationship == features_of(p.feature_relationship)
    &&& program_is(
        q.c_program,
        Language::C,
        p.c_program.documentation_url@,
        p.c_program.repository_url@,
        views(p.c_program.source_paths@),
    )
    &&& program_is(
        q.rust_program,
        Language::Rust,
        p.rust_program.documentation_url@,
        p.rust_program.repository_url@,
        views(p.rust_program.source_paths@),
    )
}

/// Whether `q` is the parsed form of the project pair `p` of a project
/// described by `info`.
pub open spec fn project_parsed(
    p: ProjectProgramPair,
    info: ProjectPairsMetadataProjectInformation,
    q: ProgramPair,
) -> bool {
    &&& q.program_name@ == p.program_name@
    &&& q.program_description@ == p.program_description@
    &&& views(q.translation_tools@) == views(info.translation_tools@)
    &&& q.feature_relationship == features_of(info.feature_relationship)
    &&& program_is(
        q.c_program,
        Language::C,
        info.c_program.documentation_url@,
        info.c_program.repository_url@,
        views(p.c_program.source_paths@),
    )
    &&& program_is(
        q.rust_program,
        Language::Rust,
        info.rust_program.documentation_url@,
        info.rust_program.repository_url@,
        views(p.rust_program.source_paths@),
    )
}

/// The feature relationship of the parsed schema for `relationship`.
pub fn map_feature_relationship(relationship: FeatureRelationship) -> (r: Features)
    ensures
        r == features_of(relationship),
{
    match relationship {
        FeatureRelationship::RustSubsetOfC => Features::RustSubsetOfC,
        FeatureRelationship::RustSupersetOfC => Features::RustSupersetOfC,
        FeatureRelationship::RustEquivalentToC => Features::RustEquivalentToC,
        FeatureRelationship::Overlapping => Features::Overlapping,
    }
}

/// The metadata of an individual metadata file, one parsed pair for each
/// of `pairs`, in order.
pub fn parse_individual(pairs: &Vec<IndividualProgramPair>) -> (r: Metadata)
    ensures
        r.pairs.len() == pairs.len(),
        forall|i: int| 0 <= i < pairs.len() ==> individual_parsed(pairs@[i], #[trigger] r.pairs@[i]),
{
    let mut out: Vec<ProgramPair> = Vec::new();
    let mut i: usize = 0;
    while i < pairs.len()
        invariant
            i <= pairs.len(),
            out.len() == i,
            forall|k: int| 0 <= k < i ==> individual_parsed(pairs@[k], #[trigger] out@[k]),
        decreases pairs.len() - i,
    {
        let pair = &pairs[i];
        out.push(
            ProgramPair {
                program_name: pair.program_name.clone(),
                program_description: pair.program_description.clone(),
                translation_tools: clone_strings(&pair.translation_tools),
                feature_relationship: map_feature_relationship(pair.feature_relationship),
                c_program: Program {
                    language: Language::C,
                    documentation_url: pair.c_program.documentation_url.clone(),
                    repository_url: pair.c_program.repository_url.clone(),
                    source_paths: clone_strings(&pair.c_program.source_paths),
                },
                rust_program: Program {
                    language: Language::Rust,
                    documentation_url: pair.rust_program.documentation_url.clone(),
                    repository_url: pair.rust_program.repository_url.clone(),
                    source_paths: clone_strings(&pair.rust_program.source_paths),
                },
            },
        );
        i = i + 1;
    }
    Metadata { pairs: out }
}

/// The metadata of a project metadata file, one parsed pair for each of
/// `pairs`, in order, each with what `project_information` states for all.
pub fn parse_project(
    pairs: &Vec<ProjectProgramPair>,
    project_information: &ProjectPairsMetadataProjectInformation,
) -> (r: Metadata)
    ensures
        r.pairs.len() == pairs.len(),
        forall|i: int|
            0 <= i < pairs.len() ==> project_parsed(
                pairs@[i],
                *project_information,
                #[trigger] r.pairs@[i],
            ),
{
    let info = project_information;
    let mut out: Vec<ProgramPair> = Vec::new();
    let mut i: usize = 0;
    while i < pairs.len()
        invariant
            i <= pairs.len(),
            out.len() == i,
            forall|k: int| 0 <= k < i ==> project_parsed(pairs@[k], *info, #[trigger] out@[k]),
        decreases pairs.len() - i,
    {
        let pair = &pairs[i];
        out.push(
            ProgramPair {
                program_name: pair.program_name.clone(),
                program_description: pair.program_description.clone(),
                translation_tools: clone_strings(&info.translation_tools),
                feature_relationship: map_feature_relationship(info.feature_relationship),
                c_program: Program {
                    language: Language::C,
                    documentation_url: info.c_program.documentation_url.clone(),
                    repository_url: info.c_program.repository_url.clone(),
                    source_paths: clone_strings(&pair.c_program.source_paths),
                },
                rust_program: Program {
                    language: Language::Rust,
                    documentation_url: info.rust_program.documentation_url.clone(),
                    repository_url: info.rust_program.repository_url.clone(),
                    source_paths: clone_strings(&pair.rust_program.source_paths),
                },
            },
        );
        i = i + 1;
    }
    Metadata { pairs: out }
}

} // verus!
