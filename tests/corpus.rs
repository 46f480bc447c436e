use corpus_pairs::cli::{run, Cli, Commands, Task};
use corpus_pairs::parser::{
    map_feature_relationship, parse_individual, parse_project, FeatureRelationship,
    IndividualProgram, IndividualProgramPair, ProjectPairsMetadataProjectInformation,
    ProjectProgram, ProjectProgramPair, ProjectRepository,
};
use corpus_pairs::progress::{clone_phase, ClonePhase};
use corpus_pairs::schema::{Features, Language, Metadata};

fn strings(v: &[&str]) -> Vec<String> {
    v.iter().map(|s| s.to_string()).collect()
}

#[test]
fn language_names() {
    assert_eq!(Language::C.to_str(), "c");
    assert_eq!(Language::Rust.to_str(), "rust");
}

#[test]
fn feature_relationships_map_one_to_one() {
    assert_eq!(map_feature_relationship(FeatureRelationship::RustSubsetOfC), Features::RustSubsetOfC);
    assert_eq!(
        map_feature_relationship(FeatureRelationship::RustSupersetOfC),
        Features::RustSupersetOfC
    );
    assert_eq!(
        map_feature_relationship(FeatureRelationship::RustEquivalentToC),
        Features::RustEquivalentToC
    );
    assert_eq!(map_feature_relationship(FeatureRelationship::Overlapping), Features::Overlapping);
}

#[test]
fn individual_pairs_are_copied_field_by_field() {
    let pairs = vec![IndividualProgramPair {
        program_name: "grep".to_string(),
        program_description: "search text".to_string(),
        translation_tools: strings(&["manual"]),
        feature_relationship: FeatureRelationship::Overlapping,
        c_program: IndividualProgram {
            documentation_url: "https://c.doc".to_string(),
            repository_url: "https://c.git".to_string(),
            source_paths: strings(&["src/grep.c", "src/grep.h"]),
        },
        rust_program: IndividualProgram {
            documentation_url: "https://rs.doc".to_string(),
            repository_url: "https://rs.git".to_string(),
            source_paths: strings(&["src/main.rs"]),
        },
    }];
    let m = parse_individual(&pairs);
    assert_eq!(m.pairs.len(), 1);
    let p = &m.pairs[0];
    assert_eq!(p.program_name, "grep");
    assert_eq!(p.program_description, "search text");
    assert_eq!(p.translation_tools, strings(&["manual"]));
    assert_eq!(p.feature_relationship, Features::Overlapping);
    assert_eq!(p.c_program.language, Language::C);
    assert_eq!(p.c_program.documentation_url, "https://c.doc");
    assert_eq!(p.c_program.repository_url, "https://c.git");
    assert_eq!(p.c_program.source_paths, strings(&["src/grep.c", "src/grep.h"]));
    assert_eq!(p.rust_program.language, Language::Rust);
    assert_eq!(p.rust_program.repository_url, "https://rs.git");
    assert_eq!(p.rust_program.source_paths, strings(&["src/main.rs"]));
    assert_eq!(parse_individual(&vec![]).pairs.len(), 0);
}

#[test]
fn project_pairs_share_project_information() {
    let info = ProjectPairsMetadataProjectInformation {
        translation_tools: strings(&["c2rust", "manual"]),
        feature_relationship: FeatureRelationship::RustSupersetOfC,
        c_program: ProjectRepository {
            documentation_url: "https://gnu.org/diffutils".to_string(),
            repository_url: "https://git.savannah.gnu.org/diffutils.git".to_string(),
        },
        rust_program: ProjectRepository {
            documentation_url: "https://docs.rs/diffutils".to_string(),
            repository_url: "https://github.com/uutils/diffutils".to_string(),
        },
    };
    let pairs = vec![
        ProjectProgramPair {
            program_name: "diff".to_string(),
            program_description: "compare files".to_string(),
            c_program: ProjectProgram { source_paths: strings(&["src/diff.c"]) },
            rust_program: ProjectProgram { source_paths: strings(&["src/diff.rs"]) },
        },
        ProjectProgramPair {
            program_name: "cmp".to_string(),
            program_description: "compare bytes".to_string(),
            c_program: ProjectProgram { source_paths: strings(&["src/cmp.c"]) },
            rust_program: ProjectProgram { source_paths: vec![] },
        },
    ];
    let m: Metadata = parse_project(&pairs, &info);
    assert_eq!(m.pairs.len(), 2);
    for (p, name) in m.pairs.iter().zip(["diff", "cmp"]) {
        assert_eq!(p.program_name, name);
        assert_eq!(p.translation_tools, strings(&["c2rust", "manual"]));
        assert_eq!(p.feature_relationship, Features::RustSupersetOfC);
        assert_eq!(p.c_program.repository_url, "https://git.savannah.gnu.org/diffutils.git");
        assert_eq!(p.rust_program.documentation_url, "https://docs.rs/diffutils");
    }
    assert_eq!(m.pairs[1].program_description, "compare bytes");
    assert_eq!(m.pairs[1].c_program.source_paths, strings(&["src/cmp.c"]));
    assert!(m.pairs[1].rust_program.source_paths.is_empty());
}

#[test]
fn writing_metadata_succeeds() {
    assert!(corpus_pairs::writer::write("metadata/out.json", Metadata { pairs: vec![] }).is_ok());
}

#[test]
fn commands_map_to_tasks() {
    assert!(matches!(run(Cli { command: None }), Task::DownloadPairs { demo: false }));
    assert!(matches!(
        run(Cli { command: Some(Commands::Download) }),
        Task::DownloadPairs { demo: false }
    ));
    assert!(matches!(run(Cli { command: Some(Commands::Demo) }), Task::DownloadPairs { demo: true }));
    assert!(matches!(run(Cli { command: Some(Commands::Delete) }), Task::Delete));
    let t = run(Cli {
        command: Some(Commands::Metadata {
            program_name: "diff".to_string(),
            repository: "repository_clones/c/diffutils".to_string(),
        }),
    });
    match t {
        Task::ResolveSources { program_name, repository } => {
            assert_eq!(program_name, "diff");
            assert_eq!(repository, "repository_clones/c/diffutils");
        }
        _ => panic!("expected a resolution task"),
    }
}

#[test]
fn clone_phases() {
    assert_eq!(clone_phase(3, 10, 0), ClonePhase::Receiving { received: 3, total: 10 });
    assert_eq!(clone_phase(10, 10, 4), ClonePhase::Indexing { indexed: 4, total: 10 });
    assert_eq!(clone_phase(10, 10, 10), ClonePhase::ResolvingDeltas);
    assert_eq!(clone_phase(0, 0, 0), ClonePhase::ResolvingDeltas);
}
