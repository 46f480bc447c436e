//! Character-level text handling: whitespace, trimming, tokenizing, base
//! names and quoted include directives.

use vstd::prelude::*;

verus! {

/// Whether `c` is a whitespace character (the Unicode `White_Space` property).
pub open spec fn is_ws(c: char) -> bool {
    let u = c as u32;
    (0x09 <= u && u <= 0x0d) || u == 0x20 || u == 0x85 || u == 0xa0 || u == 0x1680
        || (0x2000 <= u && u <= 0x200a) || u == 0x2028 || u == 0x2029 || u == 0x202f
        || u == 0x205f || u == 0x3000
}

/// Executable whitespace test.
pub fn is_whitespace(c: char) -> (r: bool)
    ensures
        r == is_ws(c),
{
    let u = c as u32;
    (0x09 <= u && u <= 0x0d) || u == 0x20 || u == 0x85 || u == 0xa0 || u == 0x1680
        || (0x2000 <= u && u <= 0x200a) || u == 0x2028 || u == 0x2029 || u == 0x202f
        || u == 0x205f || u == 0x3000
}

/// The characters of `s`, in order.
pub fn chars_of(s: &str) -> (r: Vec<char>)
    ensures
        r@ == s@,
{
    let mut r: Vec<char> = Vec::new();
    for c in it: s.chars()
        invariant
            r@ == it.seq().subrange(0, it.index() as int),
    {
        r.push(c);
    }
    r
}


/// The characters of each string, in order.
pub open spec fn views(v: Seq<String>) -> Seq<Seq<char>> {
    v.map_values(|l: String| l@)
}

/// `s` without its trailing whitespace.
pub open spec fn trim_end(s: Seq<char>) -> Seq<char>
    decreases s.len(),
{
    if s.len() > 0 && is_ws(s.last()) {
        trim_end(s.drop_last())
    } else {
        s
    }
}

/// Whether `s` ends with a backslash, which continues it on the next line.
pub open spec fn ends_with_backslash(s: Seq<char>) -> bool {
    s.len() > 0 && s.last() == '\\'
}

/// Joining physical lines into logical ones, as a left fold over the lines:
/// the logical lines completed so far, the pending continued line, and
/// whether the last line read continues.
pub open spec fn join_state(ls: Seq<Seq<char>>) -> (Seq<Seq<char>>, Seq<char>, bool)
    decreases ls.len(),
{
    if ls.len() == 0 {
        (Seq::empty(), Seq::empty(), false)
    } else {
        let (done, pending, _) = join_state(ls.drop_last());
        let t = trim_end(ls.last());
        if ends_with_backslash(t) {
            (done, pending + t.drop_last(), true)
        } else {
            (done.push(pending + t), Seq::empty(), false)
        }
    }
}

/// The logical lines of `ls`: each line loses its trailing whitespace; a line
/// that then ends with a backslash loses that backslash and is joined, with
/// no separator, to the lines that follow it, up to and including the first
/// one that does not; a continuation still open after the last line is a
/// logical line of its own.
pub open spec fn normalize(ls: Seq<Seq<char>>) -> Seq<Seq<char>> {
    let (done, pending, continuing) = join_state(ls);
    if continuing {
        done.push(pending)
    } else {
        done
    }
}

/// Splitting on whitespace, as a left fold over the characters: the tokens
/// completed so far, and the token being read.
pub open spec fn split_state(s: Seq<char>) -> (Seq<Seq<char>>, Seq<char>)
    decreases s.len(),
{
    if s.len() == 0 {
        (Seq::empty(), Seq::empty())
    } else {
        let (done, cur) = split_state(s.drop_last());
        if is_ws(s.last()) {
            if cur.len() > 0 {
                (done.push(cur), Seq::empty())
            } else {
                (done, Seq::empty())
            }
        } else {
            (done, cur.push(s.last()))
        }
    }
}

/// The maximal runs of non-whitespace characters of `s`, in order.
pub open spec fn tokens(s: Seq<char>) -> Seq<Seq<char>> {
    let (done, cur) = split_state(s);
    if cur.len() > 0 {
        done.push(cur)
    } else {
        done
    }
}

/// Whether `k` occurs in `s` as a contiguous run.
pub open spec fn contains(s: Seq<char>, k: Seq<char>) -> bool {
    exists|i: int| 0 <= i && i + k.len() <= s.len() && #[trigger] s.subrange(i, i + k.len()) == k
}

/// `s` without its trailing slashes.
pub open spec fn trim_slashes(s: Seq<char>) -> Seq<char>
    decreases s.len(),
{
    if s.len() > 0 && s.last() == '/' {
        trim_slashes(s.drop_last())
    } else {
        s
    }
}

/// What follows the last slash of `s`.
pub open spec fn last_component(s: Seq<char>) -> Seq<char>
    decreases s.len(),
{
    if s.len() == 0 {
        s
    } else if s.last() == '/' {
        Seq::empty()
    } else {
        last_component(s.drop_last()).push(s.last())
    }
}

/// The base name of a `/`-separated path: its last component, trailing
/// slashes ignored.
pub open spec fn base_name(s: Seq<char>) -> Seq<char> {
    last_component(trim_slashes(s))
}

/// The opening of a local include directive.
pub open spec fn include_prefix() -> Seq<char> {
    "#include \""@
}

/// The file named by a line of the exact form `#include "<name>"`.
pub open spec fn include_target(l: Seq<char>) -> Option<Seq<char>> {
    let p = include_prefix();
    if l.len() >= p.len() + 1 && l.subrange(0, p.len() as int) == p && l.last() == '"' {
        Some(l.subrange(p.len() as int, l.len() - 1))
    } else {
        None
    }
}

/// The length of `s[..end]` once its trailing whitespace is removed.
fn trim_end_len(s: &Vec<char>, end: usize) -> (r: usize)
    requires
        end <= s.len(),
    ensures
        r <= end,
        s@.subrange(0, r as int) == trim_end(s@.subrange(0, end as int)),
{
    let mut k: usize = end;
    while k > 0 && is_whitespace(s[k - 1])
        invariant
            k <= end <= s.len(),
            trim_end(s@.subrange(0, end as int)) == trim_end(s@.subrange(0, k as int)),
        decreases k,
    {
        assert(s@.subrange(0, k as int).drop_last() =~= s@.subrange(0, k - 1));
        k = k - 1;
    }
    k
}

/// Joins continued lines of a makefile into logical lines.
pub fn normalize_makefile(lines: &Vec<String>) -> (r: Vec<String>)
    ensures
        views(r@) == normalize(views(lines@)),
{
    let ghost all = views(lines@);
    let mut done: Vec<String> = Vec::new();
    let mut pending = String::new();
    let mut continuing = false;
    let mut i: usize = 0;
    while i < lines.len()
        invariant
            i <= lines.len(),
            all == views(lines@),
            (views(done@), pending@, continuing) == join_state(all.subrange(0, i as int)),
        decreases lines.len() - i,
    {
        let line = lines[i].as_str();
        let cs = chars_of(line);
        let t = trim_end_len(&cs, cs.len());
        assert(cs@.subrange(0, cs.len() as int) =~= cs@);
        assert(all.subrange(0, i + 1).drop_last() =~= all.subrange(0, i as int));
        assert(all.subrange(0, i + 1).last() == cs@);
        if t > 0 && cs[t - 1] == '\\' {
            assert(cs@.subrange(0, t as int).drop_last() =~= cs@.subrange(0, t - 1));
            pending.append(line.substring_char(0, t - 1));
            continuing = true;
        } else {
            pending.append(line.substring_char(0, t));
            done.push(pending);
            pending = String::new();
            continuing = false;
            assert(views(done@) =~= join_state(all.subrange(0, i + 1)).0);
        }
        i = i + 1;
    }
    assert(all.subrange(0, lines.len() as int) =~= all);
    if continuing {
        done.push(pending);
    }
    assert(views(done@) =~= normalize(all));
    done
}

/// The characters of each token, in order.
pub open spec fn token_views(v: Seq<Vec<char>>) -> Seq<Seq<char>> {
    v.map_values(|t: Vec<char>| t@)
}

/// Splits `s` into its whitespace-separated tokens.
pub fn split_whitespace(s: &Vec<char>) -> (r: Vec<Vec<char>>)
    ensures
        token_views(r@) == tokens(s@),
{
    let mut done: Vec<Vec<char>> = Vec::new();
    let mut cur: Vec<char> = Vec::new();
    let mut i: usize = 0;
    while i < s.len()
        invariant
            i <= s.len(),
            (token_views(done@), cur@) == split_state(s@.subrange(0, i as int)),
        decreases s.len() - i,
    {
        assert(s@.subrange(0, i + 1).drop_last() =~= s@.subrange(0, i as int));
        let c = s[i];
        if is_whitespace(c) {
            if cur.len() > 0 {
                done.push(cur);
                cur = Vec::new();
                assert(token_views(done@) =~= split_state(s@.subrange(0, i + 1)).0);
            }
        } else {
            cur.push(c);
        }
        i = i + 1;
    }
    assert(s@.subrange(0, s.len() as int) =~= s@);
    if cur.len() > 0 {
        done.push(cur);
        assert(token_views(done@) =~= tokens(s@));
    }
    done
}

/// Whether `k` occurs in `s` starting at position `at`.
fn occurs_at(s: &Vec<char>, at: usize, k: &Vec<char>) -> (r: bool)
    requires
        at + k.len() <= s.len(),
    ensures
        r == (s@.subrange(at as int, at + k.len()) == k@),
{
    let mut j: usize = 0;
    while j < k.len()
        invariant
            j <= k.len(),
            at + k.len() <= s.len(),
            s@.subrange(at as int, at + j) == k@.subrange(0, j as int),
        decreases k.len() - j,
    {
        if s[at + j] != k[j] {
            assert(s@.subrange(at as int, at + k.len())[j as int] != k@[j as int]);
            return false;
        }
        assert(s@.subrange(at as int, at + j + 1) =~= k@.subrange(0, j + 1));
        j = j + 1;
    }
    assert(k@.subrange(0, k.len() as int) =~= k@);
    true
}

/// Whether `k` occurs in `s` as a contiguous run.
pub fn contains_run(s: &Vec<char>, k: &Vec<char>) -> (r: bool)
    ensures
        r == contains(s@, k@),
{
    if k.len() > s.len() {
        return false;
    }
    let last = s.len() - k.len();
    let mut i: usize = 0;
    loop
        invariant
            k.len() <= s.len(),
            last == s.len() - k.len(),
            i <= last,
            forall|j: int| 0 <= j < i ==> #[trigger] s@.subrange(j, j + k.len()) != k@,
        decreases last - i,
    {
        if occurs_at(s, i, k) {
            return true;
        }
        if i == last {
            return false;
        }
        i = i + 1;
    }
}

/// Whether two character sequences are equal.
pub fn same_chars(a: &Vec<char>, b: &Vec<char>) -> (r: bool)
    ensures
        r == (a@ == b@),
{
    if a.len() != b.len() {
        return false;
    }
    let mut j: usize = 0;
    while j < a.len()
        invariant
            j <= a.len() == b.len(),
            a@.subrange(0, j as int) == b@.subrange(0, j as int),
        decreases a.len() - j,
    {
        if a[j] != b[j] {
            return false;
        }
        assert(a@.subrange(0, j + 1) =~= b@.subrange(0, j + 1));
        j = j + 1;
    }
    assert(a@ =~= a@.subrange(0, j as int));
    assert(b@ =~= b@.subrange(0, j as int));
    true
}

/// The characters `s[from..to]`.
fn copy_range(s: &Vec<char>, from: usize, to: usize) -> (r: Vec<char>)
    requires
        from <= to <= s.len(),
    ensures
        r@ == s@.subrange(from as int, to as int),
{
    let mut r: Vec<char> = Vec::new();
    let mut i: usize = from;
    while i < to
        invariant
            from <= i <= to <= s.len(),
            r@ == s@.subrange(from as int, i as int),
        decreases to - i,
    {
        r.push(s[i]);
        assert(r@ =~= s@.subrange(from as int, i + 1));
        i = i + 1;
    }
    r
}

/// Where the base name of the `/`-separated path `s` starts and ends.
fn base_bounds(s: &Vec<char>) -> (r: (usize, usize))
    ensures
        r.0 <= r.1 <= s.len(),
        s@.subrange(r.0 as int, r.1 as int) == base_name(s@),
{
    let mut e: usize = s.len();
    assert(s@.subrange(0, s.len() as int) =~= s@);
    while e > 0 && s[e - 1] == '/'
        invariant
            e <= s.len(),
            trim_slashes(s@) == trim_slashes(s@.subrange(0, e as int)),
        decreases e,
    {
        assert(s@.subrange(0, e as int).drop_last() =~= s@.subrange(0, e - 1));
        e = e - 1;
    }
    let ghost head = s@.subrange(0, e as int);
    assert(trim_slashes(head) == head);
    let mut k: usize = e;
    assert(head.subrange(0, e as int) =~= head);
    assert(head + head.subrange(e as int, e as int) =~= head);
    while k > 0 && s[k - 1] != '/'
        invariant
            k <= e <= s.len(),
            head == s@.subrange(0, e as int),
            last_component(head) == last_component(head.subrange(0, k as int)) + head.subrange(
                k as int,
                e as int,
            ),
        decreases k,
    {
        let ghost pre = head.subrange(0, k as int);
        assert(pre.drop_last() =~= head.subrange(0, k - 1));
        assert(last_component(pre) == last_component(head.subrange(0, k - 1)).push(head[k - 1]));
        assert(last_component(head.subrange(0, k - 1)).push(head[k - 1]) + head.subrange(
            k as int,
            e as int,
        ) =~= last_component(head.subrange(0, k - 1)) + head.subrange(k - 1, e as int));
        k = k - 1;
    }
    assert(last_component(head.subrange(0, k as int)) =~= Seq::<char>::empty());
    assert(last_component(head) =~= head.subrange(k as int, e as int));
    assert(head.subrange(k as int, e as int) =~= s@.subrange(k as int, e as int));
    (k, e)
}

/// The base name of the `/`-separated path `s`.
pub fn base_name_of(s: &Vec<char>) -> (r: Vec<char>)
    ensures
        r@ == base_name(s@),
{
    let (k, e) = base_bounds(s);
    copy_range(s, k, e)
}

/// The name of the repository at `url`: its last path component, without
/// a trailing `.git`.
pub open spec fn repository_name_of(url: Seq<char>) -> Seq<char> {
    let b = base_name(url);
    if b.len() >= 4 && b.subrange(b.len() - 4, b.len() as int) == ".git"@ {
        b.subrange(0, b.len() - 4)
    } else {
        b
    }
}

/// The directory name under which the repository at `url` is cloned, or
/// `None` when the URL names no repository.
pub fn repository_name(url: &str) -> (r: Option<String>)
    ensures
        r matches Some(n) ==> n@ == repository_name_of(url@),
        r is None <==> repository_name_of(url@).len() == 0,
{
    let cs = chars_of(url);
    let (k, e) = base_bounds(&cs);
    let ghost b = cs@.subrange(k as int, e as int);
    let suffix = chars_of(".git");
    let mut end = e;
    proof {
        reveal_strlit(".git");
    }
    if e - k >= suffix.len() && occurs_at(&cs, e - suffix.len(), &suffix) {
        assert(b.subrange(b.len() - 4, b.len() as int) =~= cs@.subrange(e - 4, e as int));
        assert(b.subrange(0, b.len() - 4) =~= cs@.subrange(k as int, e - 4));
        end = e - suffix.len();
    } else {
        if e - k >= 4 {
            assert(b.subrange(b.len() - 4, b.len() as int) =~= cs@.subrange(e - 4, e as int));
        }
    }
    if k == end {
        None
    } else {
        Some(String::from_str(url.substring_char(k, end)))
    }
}

/// The file named by `line` when it has the exact form `#include "<name>"`.
pub fn include_target_of(line: &str) -> (r: Option<Vec<char>>)
    ensures
        r matches Some(t) ==> include_target(line@) == Some(t@),
        r is None ==> include_target(line@) is None,
{
    let cs = chars_of(line);
    let p = chars_of("#include \"");
    if cs.len() > p.len() && occurs_at(&cs, 0, &p) && cs[cs.len() - 1] == '"' {
        Some(copy_range(&cs, p.len(), cs.len() - 1))
    } else {
        None
    }
}


/// A line whose trimmed form ends with a backslash, followed by a line that
/// does not continue, makes one logical line: the first without its trailing
/// whitespace and that backslash, joined with no separator to the second
/// without its trailing whitespace.
pub proof fn lemma_continuation_joins(a: Seq<char>, b: Seq<char>)
    requires
        ends_with_backslash(trim_end(a)),
        !ends_with_backslash(trim_end(b)),
    ensures
        normalize(seq![a, b]) == seq![trim_end(a).drop_last() + trim_end(b)],
{
    let ls = seq![a, b];
    assert(ls.drop_last() =~= seq![a]);
    assert(seq![a].drop_last() =~= Seq::<Seq<char>>::empty());
    assert(Seq::<char>::empty() + trim_end(a).drop_last() =~= trim_end(a).drop_last());
    assert(seq![a].last() == a);
    assert(join_state(Seq::<Seq<char>>::empty()) == (Seq::<Seq<char>>::empty(), Seq::<char>::empty(), false));
    assert(join_state(seq![a]) == (Seq::<Seq<char>>::empty(), trim_end(a).drop_last(), true));
    assert(ls.last() == b);
    assert(normalize(ls) =~= seq![trim_end(a).drop_last() + trim_end(b)]);
}

/// A single line that does not continue is one logical line: itself without
/// its trailing whitespace.
pub proof fn lemma_single_line(c: Seq<char>)
    requires
        !ends_with_backslash(trim_end(c)),
    ensures
        normalize(seq![c]) == seq![trim_end(c)],
{
    assert(seq![c].drop_last() =~= Seq::<Seq<char>>::empty());
    assert(seq![c].last() == c);
    assert(join_state(Seq::<Seq<char>>::empty()) == (Seq::<Seq<char>>::empty(), Seq::<char>::empty(), false));
    assert(join_state(seq![c]) == (seq![trim_end(c)], Seq::<char>::empty(), false));
    assert(Seq::<char>::empty() + trim_end(c) =~= trim_end(c));
    assert(normalize(seq![c]) =~= seq![trim_end(c)]);
}

proof fn lemma_split_state_concat(x: Seq<char>, y: Seq<char>, i: int)
    requires
        x.len() == 0 || is_ws(x.last()),
        0 <= i <= y.len(),
    ensures
        split_state(x + y.subrange(0, i)) == (
            split_state(x).0 + split_state(y.subrange(0, i)).0,
            split_state(y.subrange(0, i)).1,
        ),
    decreases i,
{
    if i == 0 {
        assert(x + y.subrange(0, 0) =~= x);
        assert(split_state(x).0 + Seq::<Seq<char>>::empty() =~= split_state(x).0);
        if x.len() > 0 {
            assert(split_state(x).1 =~= Seq::<char>::empty());
        }
    } else {
        lemma_split_state_concat(x, y, i - 1);
        assert((x + y.subrange(0, i)).drop_last() =~= x + y.subrange(0, i - 1));
        assert(y.subrange(0, i).drop_last() =~= y.subrange(0, i - 1));
        let d = split_state(y.subrange(0, i - 1)).0;
        let c = split_state(y.subrange(0, i - 1)).1;
        assert((split_state(x).0 + d).push(c) =~= split_state(x).0 + d.push(c));
    }
}

/// Tokens do not run across whitespace: after an empty text or a text that
/// ends in whitespace, the tokens of a concatenation are those of each part.
pub proof fn lemma_tokens_concat(x: Seq<char>, y: Seq<char>)
    requires
        x.len() == 0 || is_ws(x.last()),
    ensures
        tokens(x + y) == tokens(x) + tokens(y),
{
    lemma_split_state_concat(x, y, y.len() as int);
    assert(y.subrange(0, y.len() as int) =~= y);
    let d = split_state(y).0;
    let c = split_state(y).1;
    if x.len() > 0 {
        assert(split_state(x).1 =~= Seq::<char>::empty());
    }
    assert((split_state(x).0 + d).push(c) =~= split_state(x).0 + d.push(c));
    assert(tokens(x + y) =~= tokens(x) + tokens(y));
}


/// Trailing whitespace does not change the tokens of a text.
pub proof fn lemma_tokens_trim_end(s: Seq<char>)
    ensures
        tokens(trim_end(s)) == tokens(s),
    decreases s.len(),
{
    if s.len() > 0 && is_ws(s.last()) {
        lemma_tokens_trim_end(s.drop_last());
    }
}

/// A declaration continued onto a second line, with whitespace before its
/// backslash, reads as one logical line whose tokens are those of the first
/// line's text before the backslash followed by those of the second line:
/// the same tokens as the declaration written on one line.
pub proof fn lemma_continued_line_tokens(a: Seq<char>, b: Seq<char>)
    requires
        ends_with_backslash(trim_end(a)),
        !ends_with_backslash(trim_end(b)),
        trim_end(a).drop_last().len() == 0 || is_ws(trim_end(a).drop_last().last()),
    ensures
        normalize(seq![a, b]).len() == 1,
        tokens(normalize(seq![a, b])[0]) == tokens(trim_end(a).drop_last()) + tokens(b),
{
    let x = trim_end(a).drop_last();
    lemma_continuation_joins(a, b);
    lemma_tokens_concat(x, trim_end(b));
    lemma_tokens_trim_end(b);
}

} // verus!
