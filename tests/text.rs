use corpus_pairs::text::{
    base_name_of, chars_of, contains_run, include_target_of, is_whitespace, normalize_makefile,
    repository_name,
    same_chars, split_whitespace,
};

fn chars(s: &str) -> Vec<char> {
    s.chars().collect()
}

fn lines(ls: &[&str]) -> Vec<String> {
    ls.iter().map(|l| l.to_string()).collect()
}

#[test]
fn continuation_joins_without_separator() {
    let out = normalize_makefile(&lines(&["foo_SOURCES = a.c \\", "    b.c c.c"]));
    assert_eq!(out, lines(&["foo_SOURCES = a.c     b.c c.c"]));
    let out = normalize_makefile(&lines(&["a\\", "b"]));
    assert_eq!(out, lines(&["ab"]));
}

#[test]
fn continued_tokens_equal_single_line_tokens() {
    let joined = normalize_makefile(&lines(&["foo_SOURCES = a.c \\", "    b.c c.c"]));
    let single = normalize_makefile(&lines(&["foo_SOURCES = a.c b.c c.c"]));
    assert_eq!(split_whitespace(&chars(&joined[0])), split_whitespace(&chars(&single[0])));
}

#[test]
fn trailing_whitespace_and_one_backslash_are_removed() {
    let out = normalize_makefile(&lines(&["x = 1 \\\\  ", "  2\t", "y = 3"]));
    assert_eq!(out, lines(&["x = 1 \\  2", "y = 3"]));
    let out = normalize_makefile(&lines(&["a\\\\"]));
    assert_eq!(out, lines(&["a\\"]));
}

#[test]
fn open_continuation_at_end_is_flushed() {
    assert_eq!(normalize_makefile(&lines(&["a \\", "b \\"])), lines(&["a b "]));
    assert_eq!(normalize_makefile(&lines(&["\\"])), lines(&[""]));
    assert_eq!(normalize_makefile(&lines(&["a", "  \\  "])), lines(&["a", "  "]));
    assert_eq!(normalize_makefile(&lines(&[])), Vec::<String>::new());
    assert_eq!(normalize_makefile(&lines(&["", "  "])), lines(&["", ""]));
}

#[test]
fn whitespace_splitting() {
    assert_eq!(
        split_whitespace(&chars("  diff_SOURCES =\tdiff.c\u{a0}util.c  ")),
        vec![chars("diff_SOURCES"), chars("="), chars("diff.c"), chars("util.c")]
    );
    assert_eq!(split_whitespace(&chars("   ")), Vec::<Vec<char>>::new());
    assert!(is_whitespace('\u{3000}'));
    assert!(!is_whitespace('x'));
}

#[test]
fn base_names() {
    assert_eq!(base_name_of(&chars("lib/sub/x.c")), chars("x.c"));
    assert_eq!(base_name_of(&chars("x.c")), chars("x.c"));
    assert_eq!(base_name_of(&chars("dir/")), chars("dir"));
    assert_eq!(base_name_of(&chars("lib/x.c/")), chars("x.c"));
    assert_eq!(base_name_of(&chars("/")), chars(""));
}

#[test]
fn include_targets() {
    assert_eq!(include_target_of("#include \"util.h\""), Some(chars("util.h")));
    assert_eq!(include_target_of("#include \"\""), Some(chars("")));
    assert_eq!(include_target_of("#include \""), None);
    assert_eq!(include_target_of("#include <stdio.h>"), None);
    assert_eq!(include_target_of("#include \"a.h\" "), None);
}

#[test]
fn substring_search() {
    assert!(contains_run(&chars("cmp_diff_SOURCES = x"), &chars("diff_SOURCES")));
    assert!(!contains_run(&chars("diff_SOURCE = x"), &chars("diff_SOURCES")));
    assert!(contains_run(&chars("abc"), &chars("")));
    assert!(!contains_run(&chars("ab"), &chars("abc")));
    assert!(same_chars(&chars_of("a.c"), &chars("a.c")));
    assert!(!same_chars(&chars("a.c"), &chars("a.h")));
}

#[test]
fn repository_names() {
    assert_eq!(repository_name("https://git.savannah.gnu.org/git/diffutils.git"), Some("diffutils".to_string()));
    assert_eq!(repository_name("https://github.com/uutils/diffutils"), Some("diffutils".to_string()));
    assert_eq!(repository_name("https://github.com/uutils/diffutils/"), Some("diffutils".to_string()));
    assert_eq!(repository_name("/"), None);
    assert_eq!(repository_name(".git"), None);
    assert_eq!(repository_name("git"), Some("git".to_string()));
}
