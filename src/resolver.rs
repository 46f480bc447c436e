//! Resolution of the source files of a C program in a checked-out repository.
//!
//! The repository is given as a snapshot: every file under its root, with its
//! path relative to the root and its lines (`None` where the file could not
//! be read). Build fragments named `Makefile.am`, `local.mk` or
//! `Makemodule.am` declare a program's sources in a `<program>_SOURCES`
//! variable; the result is the closure of those files under local
//! `#include "..."` directives.

use vstd::prelude::*;
use crate::text::{
    base_name, base_name_of, chars_of, contains, contains_run, ends_with_backslash,
    include_target, include_target_of, is_ws, lemma_continuation_joins,
    lemma_continued_line_tokens, lemma_single_line, lemma_tokens_trim_end, normalize,
    normalize_makefile, same_chars, split_whitespace, token_views, tokens, trim_end, views,
};

verus! {

/// A file of a repository snapshot.
pub struct RepositoryFile {
    /// The path relative to the repository root, `/`-separated.
    pub path: String,
    /// The lines of the file, or `None` when it could not be read.
    pub lines: Option<Vec<String>>,
}

/// A snapshot of the files under a repository root.
pub struct Repository {
    pub files: Vec<RepositoryFile>,
}

/// Why a resolution was abandoned.
pub enum ResolveError {
    /// A file reached through the sources or includes could not be read.
    Unreadable { path: String },
}

/// The name of a file: the last component of its path.
pub open spec fn file_name(f: RepositoryFile) -> Seq<char> {
    base_name(f.path@)
}

/// Whether file `i` is readable and has a line `#include "<name>"` naming file `j`.
pub open spec fn includes(files: Seq<RepositoryFile>, i: int, j: int) -> bool {
    &&& 0 <= i < files.len()
    &&& 0 <= j < files.len()
    &&& match files[i].lines {
        Some(ls) => exists|k: int|
            0 <= k < ls.len() && #[trigger] include_target(ls@[k]@) == Some(file_name(files[j])),
        None => false,
    }
}

/// Whether file `j` is reached from `seeds` in at most `m` include steps.
pub open spec fn reach_within(files: Seq<RepositoryFile>, seeds: Set<int>, m: nat, j: int) -> bool
    decreases m,
{
    if m == 0 {
        seeds.contains(j)
    } else {
        reach_within(files, seeds, (m - 1) as nat, j) || exists|i: int|
            reach_within(files, seeds, (m - 1) as nat, i) && #[trigger] includes(files, i, j)
    }
}

/// Whether file `j` is reached from `seeds` through includes.
pub open spec fn reachable(files: Seq<RepositoryFile>, seeds: Set<int>, j: int) -> bool {
    exists|m: nat| #[trigger] reach_within(files, seeds, m, j)
}

/// Whether every file reached from `seeds` is readable.
pub open spec fn all_readable(files: Seq<RepositoryFile>, seeds: Set<int>) -> bool {
    forall|j: int| #[trigger] reachable(files, seeds, j) ==> files[j].lines is Some
}

/// The indices held by `v`.
pub open spec fn index_set(v: Seq<usize>) -> Set<int> {
    Set::new(|j: int| exists|k: int| 0 <= k < v.len() && v[k] as int == j)
}

/// Number of `false` entries.
spec fn count_false(v: Seq<bool>) -> nat
    decreases v.len(),
{
    if v.len() == 0 {
        0
    } else {
        count_false(v.drop_last()) + if v.last() {
            0nat
        } else {
            1nat
        }
    }
}

proof fn lemma_count_false_update(v: Seq<bool>, i: int)
    requires
        0 <= i < v.len(),
        !v[i],
    ensures
        count_false(v) >= 1,
        count_false(v.update(i, true)) == count_false(v) - 1,
    decreases v.len(),
{
    let w = v.update(i, true);
    if i == v.len() - 1 {
        assert(w.drop_last() =~= v.drop_last());
    } else {
        assert(w.drop_last() =~= v.drop_last().update(i, true));
        lemma_count_false_update(v.drop_last(), i);
    }
}

/// A set that holds the seeds and is closed under includes holds every
/// reached file.
proof fn lemma_closed_holds_reached(
    files: Seq<RepositoryFile>,
    seeds: Set<int>,
    vis: Set<int>,
    m: nat,
    j: int,
)
    requires
        seeds.subset_of(vis),
        forall|x: int, y: int| vis.contains(x) && #[trigger] includes(files, x, y) ==> vis.contains(y),
        reach_within(files, seeds, m, j),
    ensures
        vis.contains(j),
    decreases m,
{
    if m > 0 {
        if reach_within(files, seeds, (m - 1) as nat, j) {
            lemma_closed_holds_reached(files, seeds, vis, (m - 1) as nat, j);
        } else {
            let i = choose|i: int|
                reach_within(files, seeds, (m - 1) as nat, i) && #[trigger] includes(files, i, j);
            lemma_closed_holds_reached(files, seeds, vis, (m - 1) as nat, i);
        }
    }
}

/// A file included by a reached file is reached.
proof fn lemma_include_step(files: Seq<RepositoryFile>, seeds: Set<int>, i: int, j: int)
    requires
        reachable(files, seeds, i),
        includes(files, i, j),
    ensures
        reachable(files, seeds, j),
{
    let m = choose|m: nat| #[trigger] reach_within(files, seeds, m, i);
    assert(reach_within(files, seeds, m + 1, j));
}

/// The names of the files of `files`.
fn file_names(files: &Vec<RepositoryFile>) -> (r: Vec<Vec<char>>)
    ensures
        r.len() == files.len(),
        forall|j: int| 0 <= j < r.len() ==> #[trigger] r@[j]@ == file_name(files@[j]),
{
    let mut r: Vec<Vec<char>> = Vec::new();
    let mut i: usize = 0;
    while i < files.len()
        invariant
            i <= files.len(),
            r.len() == i,
            forall|j: int| 0 <= j < i ==> #[trigger] r@[j]@ == file_name(files@[j]),
        decreases files.len() - i,
    {
        let cs = chars_of(files[i].path.as_str());
        r.push(base_name_of(&cs));
        i = i + 1;
    }
    r
}

/// The indices of the names equal to `t`, in increasing order.
pub open spec fn name_matches(names: Seq<Seq<char>>, t: Seq<char>) -> Seq<int>
    decreases names.len(),
{
    if names.len() == 0 {
        Seq::empty()
    } else {
        name_matches(names.drop_last(), t) + if names.last() == t {
            seq![names.len() - 1]
        } else {
            Seq::<int>::empty()
        }
    }
}

/// The indices held by `v`, as integers.
pub open spec fn ints(v: Seq<usize>) -> Seq<int> {
    v.map_values(|x: usize| x as int)
}

/// Appends to `out`, in increasing order, every index of a file named
/// `target`.
fn add_files_named(names: &Vec<Vec<char>>, target: &Vec<char>, out: &mut Vec<usize>)
    ensures
        ints(final(out)@) == ints(old(out)@) + name_matches(token_views(names@), target@),
        forall|x: usize|
            #[trigger] final(out)@.contains(x) <==> (old(out)@.contains(x) || (x < names.len()
                && names@[x as int]@ == target@)),
        (forall|k: int| 0 <= k < old(out)@.len() ==> old(out)@[k] < names.len()) ==> (forall|k: int|
            0 <= k < final(out)@.len() ==> final(out)@[k] < names.len()),
{
    let ghost tv = token_views(names@);
    let mut j: usize = 0;
    assert(ints(out@) + name_matches(tv.subrange(0, 0), target@) =~= ints(out@));
    while j < names.len()
        invariant
            j <= names.len(),
            tv == token_views(names@),
            ints(out@) == ints(old(out)@) + name_matches(tv.subrange(0, j as int), target@),
            forall|x: usize|
                #[trigger] out@.contains(x) <==> (old(out)@.contains(x) || (x < j
                    && names@[x as int]@ == target@)),
        decreases names.len() - j,
    {
        let ghost before = out@;
        assert(tv.subrange(0, j + 1).drop_last() =~= tv.subrange(0, j as int));
        assert(tv.subrange(0, j + 1).last() == names@[j as int]@);
        if same_chars(&names[j], target) {
            out.push(j);
            assert(ints(out@) =~= ints(before).push(j as int));
            assert(ints(out@) =~= ints(old(out)@) + name_matches(tv.subrange(0, j + 1), target@));
            assert(out@.last() == j);
            assert forall|x: usize| #[trigger] out@.contains(x) <==> (before.contains(x) || x == j) by {
                if out@.contains(x) {
                    let k = choose|k: int| 0 <= k < out@.len() && out@[k] == x;
                    if k < before.len() {
                        assert(before[k] == x);
                    }
                }
                if before.contains(x) {
                    let k = choose|k: int| 0 <= k < before.len() && before[k] == x;
                    assert(out@[k] == x);
                }
            }
        } else {
            assert(name_matches(tv.subrange(0, j + 1), target@) =~= name_matches(
                tv.subrange(0, j as int),
                target@,
            ));
        }
        j = j + 1;
    }
    assert(tv.subrange(0, names.len() as int) =~= tv);
    proof {
        if forall|k: int| 0 <= k < old(out)@.len() ==> old(out)@[k] < names.len() {
            assert forall|k: int| 0 <= k < out@.len() implies out@[k] < names.len() by {
                assert(out@.contains(out@[k]));
                if old(out)@.contains(out@[k]) {
                    let m = choose|m: int| 0 <= m < old(out)@.len() && old(out)@[m] == out@[k];
                }
            }
        }
    }
}

/// Follows local includes from the files `seeds`, depth first, and returns
/// the indices of every file reached, in increasing order; or the index of a
/// reached file that could not be read.
pub fn collect_source_files(repository: &Repository, seeds: &Vec<usize>) -> (r: Result<
    Vec<usize>,
    usize,
>)
    requires
        forall|k: int| 0 <= k < seeds.len() ==> seeds@[k] < repository.files.len(),
    ensures
        r is Ok <==> all_readable(repository.files@, index_set(seeds@)),
        r matches Ok(v) ==> {
            &&& forall|a: int, b: int| 0 <= a < b < v.len() ==> v@[a] < v@[b]
            &&& forall|k: int| 0 <= k < v.len() ==> v@[k] < repository.files.len()
            &&& index_set(v@) == Set::new(
                |j: int| reachable(repository.files@, index_set(seeds@), j),
            )
        },
        r matches Err(i) ==> {
            &&& i < repository.files.len()
            &&& reachable(repository.files@, index_set(seeds@), i as int)
            &&& repository.files@[i as int].lines is None
        },
{
    let ghost files = repository.files@;
    let ghost start = index_set(seeds@);
    let n = repository.files.len();
    let names = file_names(&repository.files);
    let mut visited: Vec<bool> = Vec::new();
    while visited.len() < n
        invariant
            visited.len() <= n,
            forall|x: int| 0 <= x < visited.len() ==> !visited@[x],
        decreases n - visited.len(),
    {
        visited.push(false);
    }
    let mut pending: Vec<usize> = Vec::new();
    let mut k: usize = 0;
    while k < seeds.len()
        invariant
            k <= seeds.len(),
            pending@ == seeds@.subrange(0, k as int),
        decreases seeds.len() - k,
    {
        pending.push(seeds[k]);
        assert(pending@ =~= seeds@.subrange(0, k + 1));
        k = k + 1;
    }
    assert(pending@ =~= seeds@);
    assert forall|x: usize| #[trigger] pending@.contains(x) implies x < n && reachable(files, start, x as int) by {
        let k = choose|k: int| 0 <= k < pending@.len() && pending@[k] == x;
        assert(reach_within(files, start, 0, x as int));
    }
    while pending.len() > 0
        invariant
            files == repository.files@,
            start == index_set(seeds@),
            n == files.len(),
            names.len() == n,
            forall|j: int| 0 <= j < n ==> #[trigger] names@[j]@ == file_name(files[j]),
            visited.len() == n,
            forall|x: usize| #[trigger] pending@.contains(x) ==> x < n && reachable(files, start, x as int),
            forall|x: int|
                0 <= x < n && #[trigger] visited@[x] ==> reachable(files, start, x)
                    && files[x].lines is Some,
            forall|x: int, y: int|
                #[trigger] includes(files, x, y) && visited@[x] ==> visited@[y] || pending@.contains(
                    y as usize,
                ),
            forall|x: int| #[trigger] start.contains(x) ==> visited@[x] || pending@.contains(x as usize),
            forall|x: int| #[trigger] start.contains(x) ==> 0 <= x < n,
        decreases count_false(visited@), pending.len(),
    {
        let ghost before = pending@;
        let i = pending.pop().unwrap();
        assert(before =~= pending@.push(i));
        assert forall|x: usize| #[trigger] before.contains(x) implies pending@.contains(x) || x == i by {
            if before.contains(x) {
                let k = choose|k: int| 0 <= k < before.len() && before[k] == x;
                if k < pending@.len() {
                    assert(pending@[k] == x);
                }
            }
        }
        assert(before.contains(i));
        assert forall|x: usize| #[trigger] pending@.contains(x) implies before.contains(x) by {
            let k = choose|k: int| 0 <= k < pending@.len() && pending@[k] == x;
            assert(before[k] == x);
        }
        if !visited[i] {
            match &repository.files[i].lines {
                None => {
                    return Err(i);
                },
                Some(lines) => {
                    proof {
                        lemma_count_false_update(visited@, i as int);
                    }
                    visited.set(i, true);
                    let mut l: usize = 0;
                    while l < lines.len()
                        invariant
                            files == repository.files@,
                            start == index_set(seeds@),
                            n == files.len(),
                            i < n,
                            files[i as int].lines == Some(*lines),
                            names.len() == n,
                            forall|j: int| 0 <= j < n ==> #[trigger] names@[j]@ == file_name(files[j]),
                            visited.len() == n,
                            visited@[i as int],
                            reachable(files, start, i as int),
                            l <= lines.len(),
                            forall|x: usize| #[trigger] pending@.contains(x) ==> x < n && reachable(files, start, x as int),
                            forall|x: int|
                                0 <= x < n && #[trigger] visited@[x] ==> reachable(files, start, x)
                                    && files[x].lines is Some,
                            forall|x: int, y: int|
                                #[trigger] includes(files, x, y) && visited@[x] && x != i ==> visited@[y] || pending@.contains(
                                    y as usize,
                                ),
                            forall|y: int, m: int|
                                #![trigger include_target(lines@[m]@), file_name(files[y])]
                                0 <= m < l && 0 <= y < n && include_target(lines@[m]@) == Some(file_name(files[y])) ==> visited@[y] || pending@.contains(y as usize),
                            forall|x: int| #[trigger] start.contains(x) ==> 0 <= x < n,
                            forall|x: int| #[trigger] start.contains(x) ==> visited@[x] || pending@.contains(x as usize),
                        decreases lines.len() - l,
                    {
                        let ghost before_l = pending@;
                        match include_target_of(lines[l].as_str()) {
                            Some(t) => {
                                add_files_named(&names, &t, &mut pending);
                                assert forall|x: usize| #[trigger] pending@.contains(x) implies x < n && reachable(files, start, x as int) by {
                                    if !before_l.contains(x) {
                                        assert(include_target(lines@[l as int]@) == Some(file_name(files[x as int])));
                                        assert(includes(files, i as int, x as int));
                                        lemma_include_step(files, start, i as int, x as int);
                                    }
                                }
                                assert forall|y: int, m: int|
                                    #![trigger include_target(lines@[m]@), file_name(files[y])]
                                    0 <= m < l + 1 && 0 <= y < n && include_target(lines@[m]@) == Some(file_name(files[y])) implies visited@[y] || pending@.contains(y as usize) by {
                                    if m < l {
                                        if !visited@[y] {
                                            assert(before_l.contains(y as usize));
                                        }
                                    } else {
                                        assert(names@[y]@ == t@);
                                    }
                                }
                            },
                            None => {},
                        }
                        l = l + 1;
                    }
                    assert forall|x: int, y: int|
                        #[trigger] includes(files, x, y) && visited@[x] implies visited@[y] || pending@.contains(y as usize) by {
                        if x == i {
                            let m = choose|m: int| 0 <= m < lines.len() && #[trigger] include_target(lines@[m]@) == Some(file_name(files[y]));
                        }
                    }
                },
            }
        }
    }
    let ghost vis = Set::new(|x: int| 0 <= x < n && visited@[x]);
    assert forall|j: int| #[trigger] reachable(files, start, j) implies vis.contains(j) by {
        let m = choose|m: nat| #[trigger] reach_within(files, start, m, j);
        lemma_closed_holds_reached(files, start, vis, m, j);
    }
    let mut out: Vec<usize> = Vec::new();
    let mut x: usize = 0;
    while x < n
        invariant
            x <= n,
            visited.len() == n,
            forall|a: int, b: int| 0 <= a < b < out.len() ==> out@[a] < out@[b],
            forall|k: int| 0 <= k < out.len() ==> out@[k] < x,
            forall|j: int| 0 <= j < x ==> (visited@[j] <==> index_set(out@).contains(j)),
        decreases n - x,
    {
        let ghost before = out@;
        if visited[x] {
            out.push(x);
        }
        assert forall|j: int| 0 <= j < x + 1 implies (visited@[j] <==> index_set(out@).contains(j)) by {
            if index_set(out@).contains(j) {
                let k = choose|k: int| 0 <= k < out@.len() && out@[k] as int == j;
                if k < before.len() {
                    assert(index_set(before).contains(j));
                }
            }
            if j == x {
                if visited@[j] {
                    assert(out@[out.len() - 1] as int == j);
                } else if index_set(out@).contains(j) {
                    let k = choose|k: int| 0 <= k < out@.len() && out@[k] as int == j;
                    assert(before[k] < x);
                }
            }
            if j < x && index_set(before).contains(j) {
                let k = choose|k: int| 0 <= k < before.len() && before[k] as int == j;
                assert(out@[k] as int == j);
            }
        }
        x = x + 1;
    }
    assert forall|j: int| index_set(out@).contains(j) <==> reachable(files, start, j) by {
        if index_set(out@).contains(j) {
            let k = choose|k: int| 0 <= k < out@.len() && out@[k] as int == j;
            assert(visited@[j]);
        }
        if reachable(files, start, j) {
            assert(vis.contains(j));
        }
    }
    assert(index_set(out@) =~= Set::new(|j: int| reachable(files, start, j)));
    Ok(out)
}


/// Whether `n` is the name of a build fragment that declares sources.
pub open spec fn is_fragment_name(n: Seq<char>) -> bool {
    n == "Makefile.am"@ || n == "local.mk"@ || n == "Makemodule.am"@
}

/// The variable that lists the sources of `program`.
pub open spec fn sources_key(program: Seq<char>) -> Seq<char> {
    program + "_SOURCES"@
}

/// The names of the files.
pub open spec fn names_of(files: Seq<RepositoryFile>) -> Seq<Seq<char>> {
    files.map_values(|f: RepositoryFile| file_name(f))
}

/// The files that the tokens `ts` name, token by token, each token by its
/// base name.
pub open spec fn token_sources(ts: Seq<Seq<char>>, names: Seq<Seq<char>>) -> Seq<int>
    decreases ts.len(),
{
    if ts.len() == 0 {
        Seq::empty()
    } else {
        token_sources(ts.drop_last(), names) + name_matches(names, base_name(ts.last()))
    }
}

/// The files that the logical line `l` declares: none unless it mentions
/// `key`; else those named by its tokens from the third on.
pub open spec fn line_sources(l: Seq<char>, key: Seq<char>, names: Seq<Seq<char>>) -> Seq<int> {
    if contains(l, key) && tokens(l).len() >= 2 {
        token_sources(tokens(l).subrange(2, tokens(l).len() as int), names)
    } else {
        Seq::empty()
    }
}

/// The files that the logical lines `ls` declare, line by line.
pub open spec fn lines_sources(ls: Seq<Seq<char>>, key: Seq<char>, names: Seq<Seq<char>>) -> Seq<
    int,
>
    decreases ls.len(),
{
    if ls.len() == 0 {
        Seq::empty()
    } else {
        lines_sources(ls.drop_last(), key, names) + line_sources(ls.last(), key, names)
    }
}

/// The files that a fragment of physical lines `ls` declares.
pub open spec fn fragment_sources(ls: Seq<Seq<char>>, key: Seq<char>, names: Seq<Seq<char>>) -> Seq<
    int,
> {
    lines_sources(normalize(ls), key, names)
}

/// The files that file `f`, read as a build fragment, declares as sources
/// of `program`: none when it cannot be read.
pub open spec fn makefile_sources(files: Seq<RepositoryFile>, f: int, program: Seq<char>) -> Seq<
    int,
> {
    match files[f].lines {
        Some(v) => fragment_sources(views(v@), sources_key(program), names_of(files)),
        None => Seq::empty(),
    }
}

/// The files that the first `n` files named `fname` declare, fragment by
/// fragment.
pub open spec fn fragments_named(
    files: Seq<RepositoryFile>,
    fname: Seq<char>,
    n: nat,
    program: Seq<char>,
) -> Seq<int>
    decreases n,
{
    if n == 0 {
        Seq::empty()
    } else {
        fragments_named(files, fname, (n - 1) as nat, program) + if file_name(files[n - 1])
            == fname {
            makefile_sources(files, n - 1, program)
        } else {
            Seq::<int>::empty()
        }
    }
}

/// The declared sources of `program`, in order: the `Makefile.am` fragments,
/// then the `local.mk` ones, then the `Makemodule.am` ones.
pub open spec fn declared_seq(files: Seq<RepositoryFile>, program: Seq<char>) -> Seq<int> {
    fragments_named(files, "Makefile.am"@, files.len(), program) + fragments_named(
        files,
        "local.mk"@,
        files.len(),
        program,
    ) + fragments_named(files, "Makemodule.am"@, files.len(), program)
}

/// The files that some build fragment declares as sources of `program`.
pub open spec fn declared_sources(files: Seq<RepositoryFile>, program: Seq<char>) -> Set<int> {
    declared_seq(files, program).to_set()
}

/// The paths of the files reached from `seeds`.
pub open spec fn closure_paths(files: Seq<RepositoryFile>, seeds: Set<int>) -> Set<Seq<char>> {
    Set::new(|p: Seq<char>| exists|j: int| #[trigger] reachable(files, seeds, j) && files[j].path@ == p)
}

/// What resolving the sources of `program` in `files` may return: every
/// file reached from the declared sources is readable exactly when the
/// result is `Ok`, which then holds exactly their paths, each once; an error
/// names a reached unreadable file.
pub open spec fn resolved(
    program: Seq<char>,
    files: Seq<RepositoryFile>,
    r: Result<Vec<String>, ResolveError>,
) -> bool {
    let seeds = declared_sources(files, program);
    &&& r is Ok <==> all_readable(files, seeds)
    &&& r matches Ok(v) ==> {
        &&& views(v@).to_set() == closure_paths(files, seeds)
        &&& views(v@).no_duplicates()
    }
    &&& r matches Err(ResolveError::Unreadable { path }) ==> exists|j: int|
        reachable(files, seeds, j) && files[j].lines is None && files[j].path@ == path@
}

/// Appends to `out` the files that the logical line `line` declares.
fn add_line_sources(
    line: &Vec<char>,
    key: &Vec<char>,
    names: &Vec<Vec<char>>,
    out: &mut Vec<usize>,
)
    requires
        forall|k: int| 0 <= k < old(out)@.len() ==> old(out)@[k] < names.len(),
    ensures
        ints(final(out)@) == ints(old(out)@) + line_sources(line@, key@, token_views(names@)),
        forall|k: int| 0 <= k < final(out)@.len() ==> final(out)@[k] < names.len(),
{
    let ghost tv = token_views(names@);
    if !contains_run(line, key) {
        assert(ints(out@) + line_sources(line@, key@, tv) =~= ints(out@));
        return;
    }
    let toks = split_whitespace(line);
    let ghost ts = tokens(line@);
    assert(token_views(toks@) == ts);
    assert(ts.len() == toks.len());
    if toks.len() < 2 {
        assert(ints(out@) + line_sources(line@, key@, tv) =~= ints(out@));
        return;
    }
    let mut t: usize = 2;
    assert(ints(out@) + token_sources(ts.subrange(2, 2), tv) =~= ints(out@));
    while t < toks.len()
        invariant
            2 <= t <= toks.len(),
            token_views(toks@) == ts,
            ts == tokens(line@),
            tv == token_views(names@),
            ints(out@) == ints(old(out)@) + token_sources(ts.subrange(2, t as int), tv),
            forall|k: int| 0 <= k < out@.len() ==> out@[k] < names.len(),
        decreases toks.len() - t,
    {
        let base = base_name_of(&toks[t]);
        assert(toks@[t as int]@ == ts[t as int]);
        let ghost before = out@;
        add_files_named(names, &base, out);
        assert(ts.subrange(2, t + 1).drop_last() =~= ts.subrange(2, t as int));
        assert(ts.subrange(2, t + 1).last() == ts[t as int]);
        assert(ints(out@) =~= ints(old(out)@) + token_sources(ts.subrange(2, t + 1), tv));
        t = t + 1;
    }
}

/// Appends to `out` the files that the fragment lines `lines` declare.
fn add_fragment_sources(
    lines: &Vec<String>,
    key: &Vec<char>,
    names: &Vec<Vec<char>>,
    out: &mut Vec<usize>,
)
    requires
        forall|k: int| 0 <= k < old(out)@.len() ==> old(out)@[k] < names.len(),
    ensures
        ints(final(out)@) == ints(old(out)@) + fragment_sources(
            views(lines@),
            key@,
            token_views(names@),
        ),
        forall|k: int| 0 <= k < final(out)@.len() ==> final(out)@[k] < names.len(),
{
    let ghost tv = token_views(names@);
    let logical = normalize_makefile(lines);
    let ghost ls = normalize(views(lines@));
    assert(views(logical@) == ls);
    assert(ls.len() == logical.len());
    let mut k: usize = 0;
    assert(ints(out@) + lines_sources(ls.subrange(0, 0), key@, tv) =~= ints(out@));
    while k < logical.len()
        invariant
            views(logical@) == ls,
            ls == normalize(views(lines@)),
            tv == token_views(names@),
            k <= logical.len(),
            ints(out@) == ints(old(out)@) + lines_sources(ls.subrange(0, k as int), key@, tv),
            forall|m: int| 0 <= m < out@.len() ==> out@[m] < names.len(),
        decreases logical.len() - k,
    {
        let cs = chars_of(logical[k].as_str());
        assert(cs@ == ls[k as int]);
        add_line_sources(&cs, key, names, out);
        assert(ls.subrange(0, k + 1).drop_last() =~= ls.subrange(0, k as int));
        assert(ls.subrange(0, k + 1).last() == ls[k as int]);
        assert(ints(out@) =~= ints(old(out)@) + lines_sources(ls.subrange(0, k + 1), key@, tv));
        k = k + 1;
    }
    assert(ls.subrange(0, logical.len() as int) =~= ls);
}

/// The characters of the variable that lists the sources of `program_name`.
fn sources_key_of(program_name: &str) -> (r: Vec<char>)
    ensures
        r@ == sources_key(program_name@),
{
    let mut key = chars_of(program_name);
    let suffix = chars_of("_SOURCES");
    let mut s: usize = 0;
    while s < suffix.len()
        invariant
            s <= suffix.len(),
            key@ == program_name@ + suffix@.subrange(0, s as int),
        decreases suffix.len() - s,
    {
        key.push(suffix[s]);
        assert(key@ =~= program_name@ + suffix@.subrange(0, s + 1));
        s = s + 1;
    }
    assert(suffix@.subrange(0, suffix.len() as int) =~= suffix@);
    key
}

/// The files that the build fragment `makefile` declares as sources of
/// `program_name`, in order: logical line by logical line, token by token
/// from the third token of a line that mentions `<program_name>_SOURCES`,
/// and for each token the files named by its base name, in snapshot order.
/// An unreadable fragment declares nothing.
pub fn get_source_files_from_makefile(
    repository: &Repository,
    makefile: usize,
    program_name: &str,
) -> (r: Vec<usize>)
    requires
        makefile < repository.files.len(),
    ensures
        ints(r@) == makefile_sources(repository.files@, makefile as int, program_name@),
        forall|k: int| 0 <= k < r.len() ==> r@[k] < repository.files.len(),
{
    let names = file_names(&repository.files);
    let key = sources_key_of(program_name);
    let mut out: Vec<usize> = Vec::new();
    match &repository.files[makefile].lines {
        Some(lines) => {
            add_fragment_sources(lines, &key, &names, &mut out);
            assert(token_views(names@) =~= names_of(repository.files@));
        },
        None => {},
    }
    assert(ints(out@) =~= makefile_sources(repository.files@, makefile as int, program_name@));
    out
}

/// Appends to `out` what the files named `fname` declare, in snapshot order.
fn add_fragments_named(
    repository: &Repository,
    names: &Vec<Vec<char>>,
    fname: &Vec<char>,
    program_name: &str,
    key: &Vec<char>,
    out: &mut Vec<usize>,
)
    requires
        token_views(names@) == names_of(repository.files@),
        names.len() == repository.files.len(),
        key@ == sources_key(program_name@),
        forall|k: int| 0 <= k < old(out)@.len() ==> old(out)@[k] < names.len(),
    ensures
        ints(final(out)@) == ints(old(out)@) + fragments_named(
            repository.files@,
            fname@,
            repository.files.len() as nat,
            program_name@,
        ),
        forall|k: int| 0 <= k < final(out)@.len() ==> final(out)@[k] < names.len(),
{
    let ghost files = repository.files@;
    let mut f: usize = 0;
    assert(ints(out@) + fragments_named(files, fname@, 0, program_name@) =~= ints(out@));
    while f < repository.files.len()
        invariant
            files == repository.files@,
            token_views(names@) == names_of(files),
            names.len() == files.len(),
            key@ == sources_key(program_name@),
            f <= files.len(),
            ints(out@) == ints(old(out)@) + fragments_named(files, fname@, f as nat, program_name@),
            forall|k: int| 0 <= k < out@.len() ==> out@[k] < names.len(),
        decreases files.len() - f,
    {
        let ghost before = ints(out@);
        assert(token_views(names@)[f as int] == names@[f as int]@);
        assert(names_of(files)[f as int] == file_name(files[f as int]));
        if same_chars(&names[f], fname) {
            match &repository.files[f].lines {
                Some(lines) => {
                    add_fragment_sources(lines, key, names, out);
                },
                None => {},
            }
            assert(ints(out@) =~= ints(old(out)@) + fragments_named(files, fname@, (f + 1) as nat, program_name@));
        } else {
            assert(ints(out@) =~= ints(old(out)@) + fragments_named(files, fname@, (f + 1) as nat, program_name@));
        }
        f = f + 1;
    }
}

/// The indices of the files that a build fragment declares as sources of
/// `program_name`.
fn find_declared_sources(program_name: &str, repository: &Repository, names: &Vec<Vec<char>>) -> (r: Vec<usize>)
    requires
        names.len() == repository.files.len(),
        forall|j: int| 0 <= j < names.len() ==> #[trigger] names@[j]@ == file_name(repository.files@[j]),
    ensures
        forall|k: int| 0 <= k < r.len() ==> r@[k] < repository.files.len(),
        ints(r@) == declared_seq(repository.files@, program_name@),
        index_set(r@) == declared_sources(repository.files@, program_name@),
{
    let ghost files = repository.files@;
    assert(token_views(names@) =~= names_of(files));
    let key = sources_key_of(program_name);
    let mut out: Vec<usize> = Vec::new();
    add_fragments_named(repository, names, &chars_of("Makefile.am"), program_name, &key, &mut out);
    add_fragments_named(repository, names, &chars_of("local.mk"), program_name, &key, &mut out);
    add_fragments_named(repository, names, &chars_of("Makemodule.am"), program_name, &key, &mut out);
    assert(ints(out@) =~= declared_seq(files, program_name@));
    assert forall|j: int| index_set(out@).contains(j) <==> ints(out@).to_set().contains(j) by {
        if index_set(out@).contains(j) {
            let k = choose|k: int| 0 <= k < out@.len() && out@[k] as int == j;
            assert(ints(out@)[k] == j);
        }
        if ints(out@).to_set().contains(j) {
            let k = choose|k: int| 0 <= k < ints(out@).len() && ints(out@)[k] == j;
            assert(out@[k] as int == j);
        }
    }
    assert(index_set(out@) =~= declared_sources(files, program_name@));
    out
}

/// Whether some string of `v` equals `s`.
fn holds_string(v: &Vec<String>, s: &String) -> (r: bool)
    ensures
        r == views(v@).contains(s@),
{
    let mut i: usize = 0;
    while i < v.len()
        invariant
            i <= v.len(),
            forall|m: int| 0 <= m < i ==> v@[m]@ != s@,
        decreases v.len() - i,
    {
        if v[i] == *s {
            assert(views(v@)[i as int] == s@);
            return true;
        }
        i = i + 1;
    }
    assert forall|m: int| 0 <= m < views(v@).len() implies views(v@)[m] != s@ by {
        assert(views(v@)[m] == v@[m]@);
    }
    false
}

/// Resolves the source files of `program_name` in `repository`: the files
/// that its build fragments declare, and every file that those include,
/// directly or not, through local `#include "..."` directives. Each path is
/// relative to the repository root, and appears once.
pub fn get_c_source_files(program_name: &str, repository: &Repository) -> (r: Result<
    Vec<String>,
    ResolveError,
>)
    ensures
        resolved(program_name@, repository.files@, r),
{
    let ghost files = repository.files@;
    let names = file_names(&repository.files);
    let seeds = find_declared_sources(program_name, repository, &names);
    let ghost start = declared_sources(files, program_name@);
    match collect_source_files(repository, &seeds) {
        Err(i) => {
            let path = repository.files[i].path.clone();
            Err(ResolveError::Unreadable { path })
        },
        Ok(found) => {
            let mut out: Vec<String> = Vec::new();
            let mut k: usize = 0;
            while k < found.len()
                invariant
                    files == repository.files@,
                    index_set(found@) == Set::new(|j: int| reachable(files, start, j)),
                    forall|m: int| 0 <= m < found.len() ==> found@[m] < files.len(),
                    k <= found.len(),
                    views(out@).no_duplicates(),
                    forall|p: Seq<char>|
                        #[trigger] views(out@).contains(p) <==> exists|m: int|
                            0 <= m < k && files[found@[m] as int].path@ == p,
                decreases found.len() - k,
            {
                let j = found[k];
                let ghost before = views(out@);
                let ghost p = files[j as int].path@;
                if !holds_string(&out, &repository.files[j].path) {
                    out.push(repository.files[j].path.clone());
                    assert(views(out@) =~= before.push(p));
                }
                assert forall|q: Seq<char>|
                    #[trigger] views(out@).contains(q) <==> exists|m: int|
                        0 <= m < k + 1 && files[found@[m] as int].path@ == q by {
                    if views(out@).contains(q) && !before.contains(q) {
                        assert(q == p);
                        assert(files[found@[k as int] as int].path@ == q);
                    }
                    if exists|m: int| 0 <= m < k + 1 && files[found@[m] as int].path@ == q {
                        let m = choose|m: int| 0 <= m < k + 1 && files[found@[m] as int].path@ == q;
                        if m < k {
                            assert(before.contains(q));
                            let i = choose|i: int| 0 <= i < before.len() && before[i] == q;
                            assert(views(out@)[i] == q);
                        } else {
                            if before.contains(q) {
                                let i = choose|i: int| 0 <= i < before.len() && before[i] == q;
                                assert(views(out@)[i] == q);
                            } else {
                                assert(views(out@)[views(out@).len() - 1] == q);
                            }
                        }
                    }
                }
                k = k + 1;
            }
            assert forall|p: Seq<char>| views(out@).to_set().contains(p) <==> closure_paths(files, start).contains(p) by {
                if views(out@).contains(p) {
                    let m = choose|m: int| 0 <= m < found.len() && files[found@[m] as int].path@ == p;
                    assert(index_set(found@).contains(found@[m] as int));
                    assert(reachable(files, start, found@[m] as int));
                }
                if closure_paths(files, start).contains(p) {
                    let j = choose|j: int| #[trigger] reachable(files, start, j) && files[j].path@ == p;
                    assert(index_set(found@).contains(j));
                    let m = choose|m: int| 0 <= m < found.len() && found@[m] as int == j;
                    assert(views(out@).contains(p));
                }
            }
            assert(views(out@).to_set() =~= closure_paths(files, start));
            Ok(out)
        },
    }
}

/// The indices of the build fragments of `repository` that cannot be read.
pub fn unreadable_fragments(repository: &Repository) -> (r: Vec<usize>)
    ensures
        forall|x: usize|
            #[trigger] r@.contains(x) <==> (x < repository.files.len() && is_fragment_name(
                file_name(repository.files@[x as int]),
            ) && repository.files@[x as int].lines is None),
{
    let names = file_names(&repository.files);
    let automake = chars_of("Makefile.am");
    let local = chars_of("local.mk");
    let makemodule = chars_of("Makemodule.am");
    let mut out: Vec<usize> = Vec::new();
    let mut f: usize = 0;
    while f < repository.files.len()
        invariant
            f <= repository.files.len(),
            names.len() == repository.files.len(),
            forall|j: int| 0 <= j < names.len() ==> #[trigger] names@[j]@ == file_name(repository.files@[j]),
            automake@ == "Makefile.am"@,
            local@ == "local.mk"@,
            makemodule@ == "Makemodule.am"@,
            forall|x: usize|
                #[trigger] out@.contains(x) <==> (x < f && is_fragment_name(
                    file_name(repository.files@[x as int]),
                ) && repository.files@[x as int].lines is None),
        decreases repository.files.len() - f,
    {
        let ghost before = out@;
        let fragment = same_chars(&names[f], &automake) || same_chars(&names[f], &local)
            || same_chars(&names[f], &makemodule);
        if fragment && repository.files[f].lines.is_none() {
            out.push(f);
        }
        assert forall|x: usize|
            #[trigger] out@.contains(x) <==> (x < f + 1 && is_fragment_name(
                file_name(repository.files@[x as int]),
            ) && repository.files@[x as int].lines is None) by {
            if out@.contains(x) {
                let k = choose|k: int| 0 <= k < out@.len() && out@[k] == x;
                if k < before.len() {
                    assert(before.contains(x));
                }
            }
            if x < f && before.contains(x) {
                let k = choose|k: int| 0 <= k < before.len() && before[k] == x;
                assert(out@[k] == x);
            }
            if x == f && out@.len() > before.len() {
                assert(out@[out@.len() - 1] == x);
            }
        }
        f = f + 1;
    }
    out
}

/// Resolving the same program in the same repository twice gives the same
/// outcome: both succeed with the same set of paths, or both fail.
pub proof fn lemma_resolution_idempotent(
    program: Seq<char>,
    files: Seq<RepositoryFile>,
    r1: Result<Vec<String>, ResolveError>,
    r2: Result<Vec<String>, ResolveError>,
)
    requires
        resolved(program, files, r1),
        resolved(program, files, r2),
    ensures
        r1 is Ok <==> r2 is Ok,
        r1 is Ok ==> views(r1->Ok_0@).to_set() == views(r2->Ok_0@).to_set(),
{
}

/// Two readable files that include each other, and nothing else, with the
/// first one the only declared source: resolution succeeds with exactly the
/// two paths.
pub proof fn lemma_include_cycle(
    program: Seq<char>,
    files: Seq<RepositoryFile>,
    r: Result<Vec<String>, ResolveError>,
    a: int,
    b: int,
)
    requires
        resolved(program, files, r),
        declared_sources(files, program) == set![a],
        includes(files, a, b),
        includes(files, b, a),
        forall|y: int| #[trigger] includes(files, a, y) ==> y == b,
        forall|y: int| #[trigger] includes(files, b, y) ==> y == a,
    ensures
        r is Ok,
        views(r->Ok_0@).to_set() == set![files[a].path@, files[b].path@],
{
    let seeds = declared_sources(files, program);
    let pair = set![a, b];
    assert forall|j: int| #[trigger] reachable(files, seeds, j) implies pair.contains(j) by {
        let m = choose|m: nat| #[trigger] reach_within(files, seeds, m, j);
        assert forall|x: int, y: int| pair.contains(x) && #[trigger] includes(files, x, y) implies pair.contains(y) by {
            if x == a {
                assert(y == b);
            } else {
                assert(y == a);
            }
        }
        lemma_closed_holds_reached(files, seeds, pair, m, j);
    }
    assert(reach_within(files, seeds, 0, a));
    assert(reachable(files, seeds, a));
    assert(reach_within(files, seeds, 1, b));
    assert(reachable(files, seeds, b));
    assert(all_readable(files, seeds));
    let paths = set![files[a].path@, files[b].path@];
    assert forall|p: Seq<char>| closure_paths(files, seeds).contains(p) <==> paths.contains(p) by {
        if closure_paths(files, seeds).contains(p) {
            let j = choose|j: int| #[trigger] reachable(files, seeds, j) && files[j].path@ == p;
            assert(pair.contains(j));
        }
        if p == files[a].path@ {
            assert(reachable(files, seeds, a) && files[a].path@ == p);
        }
        if p == files[b].path@ {
            assert(reachable(files, seeds, b) && files[b].path@ == p);
        }
    }
    assert(closure_paths(files, seeds) =~= paths);
}

proof fn lemma_lines_sources_empty(ls: Seq<Seq<char>>, key: Seq<char>, names: Seq<Seq<char>>)
    requires
        forall|k: int| 0 <= k < ls.len() ==> !contains(#[trigger] ls[k], key),
    ensures
        lines_sources(ls, key, names) == Seq::<int>::empty(),
    decreases ls.len(),
{
    if ls.len() > 0 {
        lemma_lines_sources_empty(ls.drop_last(), key, names);
        assert(!contains(ls[ls.len() - 1], key));
        assert(lines_sources(ls, key, names) =~= Seq::<int>::empty());
    }
}

proof fn lemma_fragments_named_empty(
    files: Seq<RepositoryFile>,
    fname: Seq<char>,
    n: nat,
    program: Seq<char>,
)
    requires
        is_fragment_name(fname),
        n <= files.len(),
        forall|f: int, k: int|
            0 <= f < files.len() && is_fragment_name(file_name(files[f])) && files[f].lines is Some
                && 0 <= k < normalize(views(files[f].lines->0@)).len() ==> !contains(
                #[trigger] normalize(views(files[f].lines->0@))[k],
                sources_key(program),
            ),
    ensures
        fragments_named(files, fname, n, program) == Seq::<int>::empty(),
    decreases n,
{
    if n > 0 {
        lemma_fragments_named_empty(files, fname, (n - 1) as nat, program);
        let f = n - 1;
        if file_name(files[f]) == fname && files[f].lines is Some {
            let ls = normalize(views(files[f].lines->0@));
            assert forall|k: int| 0 <= k < ls.len() implies !contains(#[trigger] ls[k], sources_key(program)) by {}
            lemma_lines_sources_empty(ls, sources_key(program), names_of(files));
        }
        assert(fragments_named(files, fname, n, program) =~= Seq::<int>::empty());
    }
}

/// When no logical line of any readable build fragment mentions the sources
/// variable of `program`, resolution succeeds with no paths.
pub proof fn lemma_no_declaration_empty(
    program: Seq<char>,
    files: Seq<RepositoryFile>,
    r: Result<Vec<String>, ResolveError>,
)
    requires
        resolved(program, files, r),
        forall|f: int, k: int|
            0 <= f < files.len() && is_fragment_name(file_name(files[f])) && files[f].lines is Some
                && 0 <= k < normalize(views(files[f].lines->0@)).len() ==> !contains(
                #[trigger] normalize(views(files[f].lines->0@))[k],
                sources_key(program),
            ),
    ensures
        r matches Ok(v) && v.len() == 0,
{
    let seeds = declared_sources(files, program);
    lemma_fragments_named_empty(files, "Makefile.am"@, files.len(), program);
    lemma_fragments_named_empty(files, "local.mk"@, files.len(), program);
    lemma_fragments_named_empty(files, "Makemodule.am"@, files.len(), program);
    assert(declared_seq(files, program) =~= Seq::<int>::empty());
    assert(seeds =~= Set::<int>::empty());
    assert forall|j: int| #[trigger] reachable(files, seeds, j) implies false by {
        let m = choose|m: nat| #[trigger] reach_within(files, seeds, m, j);
        lemma_closed_holds_reached(files, seeds, Set::empty(), m, j);
    }
    let v = r->Ok_0;
    if v.len() > 0 {
        assert(views(v@)[0] == v@[0]@);
        assert(views(v@).contains(v@[0]@));
        assert(views(v@).to_set().contains(v@[0]@));
        let j = choose|j: int| #[trigger] reachable(files, seeds, j) && files[j].path@ == v@[0]@;
    }
}

/// A declaration continued onto a second line, with whitespace before the
/// backslash, declares the same files as a declaration on one line with the
/// same tokens, when both mention the sources variable (the first on the
/// line that continues).
pub proof fn lemma_continued_declaration(
    a: Seq<char>,
    b: Seq<char>,
    c: Seq<char>,
    key: Seq<char>,
    names: Seq<Seq<char>>,
)
    requires
        ends_with_backslash(trim_end(a)),
        !ends_with_backslash(trim_end(b)),
        !ends_with_backslash(trim_end(c)),
        trim_end(a).drop_last().len() == 0 || is_ws(trim_end(a).drop_last().last()),
        tokens(c) == tokens(trim_end(a).drop_last()) + tokens(b),
        contains(trim_end(a).drop_last(), key),
        contains(trim_end(c), key),
    ensures
        fragment_sources(seq![a, b], key, names) == fragment_sources(seq![c], key, names),
{
    let x = trim_end(a).drop_last();
    let j = x + trim_end(b);
    lemma_continuation_joins(a, b);
    lemma_continued_line_tokens(a, b);
    lemma_single_line(c);
    lemma_tokens_trim_end(c);
    let i = choose|i: int| 0 <= i && i + key.len() <= x.len() && #[trigger] x.subrange(i, i + key.len()) == key;
    assert(j.subrange(i, i + key.len()) =~= x.subrange(i, i + key.len()));
    assert(contains(j, key));
    assert(seq![j].drop_last() =~= Seq::<Seq<char>>::empty());
    assert(seq![trim_end(c)].drop_last() =~= Seq::<Seq<char>>::empty());
    assert(lines_sources(Seq::<Seq<char>>::empty(), key, names) == Seq::<int>::empty());
    assert(seq![j].last() == j);
    assert(Seq::<int>::empty() + line_sources(j, key, names) =~= line_sources(j, key, names));
    assert(lines_sources(seq![j], key, names) =~= line_sources(j, key, names));
    assert(seq![trim_end(c)].last() == trim_end(c));
    assert(Seq::<int>::empty() + line_sources(trim_end(c), key, names) =~= line_sources(
        trim_end(c),
        key,
        names,
    ));
    assert(lines_sources(seq![trim_end(c)], key, names) =~= line_sources(trim_end(c), key, names));
}

} // verus!
