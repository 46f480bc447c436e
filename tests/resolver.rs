use corpus_pairs::resolver::{
    collect_source_files, get_c_source_files, get_source_files_from_makefile,
    unreadable_fragments, Repository, RepositoryFile, ResolveError,
};
use std::collections::BTreeSet;

fn file(path: &str, lines: &[&str]) -> RepositoryFile {
    RepositoryFile {
        path: path.to_string(),
        lines: Some(lines.iter().map(|l| l.to_string()).collect()),
    }
}

fn unreadable(path: &str) -> RepositoryFile {
    RepositoryFile { path: path.to_string(), lines: None }
}

fn resolve_set(program: &str, repo: &Repository) -> BTreeSet<String> {
    match get_c_source_files(program, repo) {
        Ok(v) => v.into_iter().collect(),
        Err(ResolveError::Unreadable { path }) => panic!("unexpected unreadable file {path}"),
    }
}

fn set(items: &[&str]) -> BTreeSet<String> {
    items.iter().map(|s| s.to_string()).collect()
}

fn diff_repo(extra_fragment_line: Option<&str>) -> Repository {
    let mut fragment = vec!["diff_SOURCES = diff.c util.c"];
    if let Some(l) = extra_fragment_line {
        fragment.push(l);
    }
    Repository {
        files: vec![
            file("Makefile.am", &fragment),
            file("diff.c", &["#include <stdio.h>", "#include \"util.h\"", "int main() {}"]),
            file("util.c", &["int util() {}"]),
            file("util.h", &["int util();"]),
            file("other.c", &["int other;"]),
        ],
    }
}

#[test]
fn diff_scenario_follows_includes() {
    let repo = diff_repo(None);
    assert_eq!(resolve_set("diff", &repo), set(&["diff.c", "util.c", "util.h"]));
}

#[test]
fn substring_key_matches_longer_program_name() {
    let repo = diff_repo(Some("cmp_diff_SOURCES = other.c"));
    assert_eq!(
        resolve_set("diff", &repo),
        set(&["diff.c", "util.c", "util.h", "other.c"])
    );
    assert_eq!(resolve_set("cmp_diff", &repo), set(&["other.c"]));
}

#[test]
fn include_cycle_terminates_with_both_files() {
    let repo = Repository {
        files: vec![
            file("Makefile.am", &["prog_SOURCES = a.c"]),
            file("a.c", &["#include \"b.h\""]),
            file("b.h", &["#include \"a.c\""]),
        ],
    };
    assert_eq!(resolve_set("prog", &repo), set(&["a.c", "b.h"]));
}

#[test]
fn self_include_terminates() {
    let repo = Repository {
        files: vec![
            file("local.mk", &["prog_SOURCES = a.c"]),
            file("a.c", &["#include \"a.c\""]),
        ],
    };
    assert_eq!(resolve_set("prog", &repo), set(&["a.c"]));
}

#[test]
fn continued_declaration_resolves_like_single_line() {
    let continued = Repository {
        files: vec![
            file("Makefile.am", &["foo_SOURCES = a.c \\", "    b.c c.c"]),
            file("a.c", &[]),
            file("b.c", &[]),
            file("c.c", &[]),
        ],
    };
    let single = Repository {
        files: vec![
            file("Makefile.am", &["foo_SOURCES = a.c b.c c.c"]),
            file("a.c", &[]),
            file("b.c", &[]),
            file("c.c", &[]),
        ],
    };
    assert_eq!(resolve_set("foo", &continued), set(&["a.c", "b.c", "c.c"]));
    assert_eq!(resolve_set("foo", &continued), resolve_set("foo", &single));
}

#[test]
fn no_matching_declaration_gives_empty_result() {
    let repo = diff_repo(None);
    let r = get_c_source_files("patch", &repo);
    assert!(matches!(r, Ok(ref v) if v.is_empty()));
}

#[test]
fn repository_without_fragments_gives_empty_result() {
    let repo = Repository { files: vec![file("main.c", &["#include \"x.h\""])] };
    assert!(matches!(get_c_source_files("main", &repo), Ok(ref v) if v.is_empty()));
}

#[test]
fn resolving_twice_gives_same_set() {
    let repo = diff_repo(Some("cmp_diff_SOURCES = other.c"));
    assert_eq!(resolve_set("diff", &repo), resolve_set("diff", &repo));
}

#[test]
fn overlapping_declarations_and_includes_give_no_duplicates() {
    let repo = Repository {
        files: vec![
            file("Makefile.am", &["prog_SOURCES = a.c b.c", "prog_SOURCES += a.c"]),
            file("sub/Makemodule.am", &["prog_SOURCES = a.c"]),
            file("a.c", &["#include \"common.h\""]),
            file("b.c", &["#include \"common.h\"", "#include \"common.h\""]),
            file("common.h", &[]),
        ],
    };
    let v = match get_c_source_files("prog", &repo) {
        Ok(v) => v,
        Err(_) => panic!("expected success"),
    };
    let s: BTreeSet<String> = v.iter().cloned().collect();
    assert_eq!(v.len(), s.len());
    assert_eq!(s, set(&["a.c", "b.c", "common.h"]));
}

#[test]
fn directory_prefix_of_token_is_dropped_and_every_match_kept() {
    let repo = Repository {
        files: vec![
            file("src/Makefile.am", &["tool_SOURCES = lib/x.c"]),
            file("src/x.c", &[]),
            file("vendor/x.c", &[]),
            file("lib/y.c", &[]),
        ],
    };
    assert_eq!(resolve_set("tool", &repo), set(&["src/x.c", "vendor/x.c"]));
}

#[test]
fn token_without_file_contributes_nothing() {
    let repo = Repository {
        files: vec![file("Makefile.am", &["tool_SOURCES = missing.c present.c"]), file("present.c", &[])],
    };
    assert_eq!(resolve_set("tool", &repo), set(&["present.c"]));
}

#[test]
fn first_two_tokens_are_skipped() {
    let repo = Repository {
        files: vec![
            file("Makefile.am", &["a.c b.c prog_SOURCES"]),
            file("a.c", &[]),
            file("b.c", &[]),
        ],
    };
    assert!(matches!(get_c_source_files("prog", &repo), Ok(ref v) if v.is_empty()));
    let repo = Repository {
        files: vec![file("Makefile.am", &["prog_SOURCES = a.c"]), file("a.c", &[])],
    };
    assert_eq!(resolve_set("prog", &repo), set(&["a.c"]));
}

#[test]
fn unrecognized_fragment_names_are_ignored() {
    let repo = Repository {
        files: vec![
            file("Makefile", &["prog_SOURCES = a.c"]),
            file("makefile.am", &["prog_SOURCES = a.c"]),
            file("a.c", &[]),
        ],
    };
    assert!(matches!(get_c_source_files("prog", &repo), Ok(ref v) if v.is_empty()));
}

#[test]
fn unreadable_fragment_is_skipped() {
    let repo = Repository {
        files: vec![
            unreadable("Makefile.am"),
            file("local.mk", &["prog_SOURCES = a.c"]),
            file("a.c", &[]),
        ],
    };
    assert_eq!(resolve_set("prog", &repo), set(&["a.c"]));
}

#[test]
fn unreadable_reached_file_is_an_error() {
    let repo = Repository {
        files: vec![
            file("Makefile.am", &["prog_SOURCES = a.c"]),
            file("a.c", &["#include \"gone.h\""]),
            unreadable("inc/gone.h"),
        ],
    };
    match get_c_source_files("prog", &repo) {
        Err(ResolveError::Unreadable { path }) => assert_eq!(path, "inc/gone.h"),
        Ok(_) => panic!("expected an error"),
    }
}

#[test]
fn unreadable_file_not_reached_is_no_error() {
    let repo = Repository {
        files: vec![
            file("Makefile.am", &["prog_SOURCES = a.c"]),
            file("a.c", &[]),
            unreadable("b.c"),
        ],
    };
    assert_eq!(resolve_set("prog", &repo), set(&["a.c"]));
}

#[test]
fn angle_and_malformed_includes_are_ignored() {
    let repo = Repository {
        files: vec![
            file("Makefile.am", &["prog_SOURCES = a.c"]),
            file(
                "a.c",
                &["#include <b.h>", "  #include \"c.h\"", "#include \"d.h\" // d", "#include \"e.h\""],
            ),
            file("b.h", &[]),
            file("c.h", &[]),
            file("d.h", &[]),
            file("e.h", &[]),
        ],
    };
    assert_eq!(resolve_set("prog", &repo), set(&["a.c", "e.h"]));
}

#[test]
fn walk_reports_reached_indices_in_order() {
    let repo = Repository {
        files: vec![
            file("a.c", &["#include \"c.h\""]),
            file("b.c", &[]),
            file("c.h", &["#include \"a.c\""]),
        ],
    };
    assert_eq!(collect_source_files(&repo, &vec![2]), Ok(vec![0, 2]));
    assert_eq!(collect_source_files(&repo, &vec![]), Ok(vec![]));
    let repo = Repository { files: vec![file("a.c", &["#include \"b.c\""]), unreadable("b.c")] };
    assert_eq!(collect_source_files(&repo, &vec![0]), Err(1));
}

#[test]
fn makefile_sources_come_in_line_token_match_order() {
    let repo = Repository {
        files: vec![
            file("Makefile.am", &["prog_SOURCES = z.c a.c", "other = b.c", "prog_SOURCES += m.c"]),
            file("a.c", &[]),
            file("lib/z.c", &[]),
            file("m.c", &[]),
            file("z.c", &[]),
            file("b.c", &[]),
        ],
    };
    assert_eq!(get_source_files_from_makefile(&repo, 0, "prog"), vec![2, 4, 1, 3]);
    assert_eq!(get_source_files_from_makefile(&repo, 1, "prog"), Vec::<usize>::new());
    let repo = Repository { files: vec![unreadable("Makefile.am"), file("a.c", &[])] };
    assert_eq!(get_source_files_from_makefile(&repo, 0, "a"), Vec::<usize>::new());
}

#[test]
fn continued_fragment_declares_like_single_line_fragment() {
    let files = |fragment: &[&str]| Repository {
        files: vec![
            file("Makefile.am", fragment),
            file("a.c", &[]),
            file("b.c", &[]),
            file("c.c", &[]),
        ],
    };
    let continued = files(&["foo_SOURCES = a.c \\", "    b.c c.c"]);
    let single = files(&["foo_SOURCES = a.c b.c c.c"]);
    assert_eq!(get_source_files_from_makefile(&continued, 0, "foo"), vec![1, 2, 3]);
    assert_eq!(
        get_source_files_from_makefile(&continued, 0, "foo"),
        get_source_files_from_makefile(&single, 0, "foo")
    );
}

#[test]
fn token_with_trailing_slash_keeps_its_base_name() {
    let repo = Repository {
        files: vec![file("Makefile.am", &["prog_SOURCES = lib/x.c/"]), file("src/x.c", &[])],
    };
    assert_eq!(resolve_set("prog", &repo), set(&["src/x.c"]));
}

#[test]
fn repeated_paths_in_snapshot_are_reported_once() {
    let repo = Repository {
        files: vec![
            file("Makefile.am", &["prog_SOURCES = a.c"]),
            file("a.c", &[]),
            file("a.c", &[]),
        ],
    };
    assert_eq!(get_c_source_files("prog", &repo).ok(), Some(vec!["a.c".to_string()]));
}

#[test]
fn unreadable_fragments_are_listed() {
    let repo = Repository {
        files: vec![
            unreadable("Makefile.am"),
            unreadable("a.c"),
            file("local.mk", &[]),
            unreadable("sub/Makemodule.am"),
        ],
    };
    assert_eq!(unreadable_fragments(&repo), vec![0, 3]);
}
