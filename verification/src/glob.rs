//! Glob patterns on paths, a path being the list of its segments.

use crate::text::{
    char_vec, has_prefix, join, same_text, split, split_of_join, split_text, texts,
};
use vstd::prelude::*;

verus! {

/// Whether a segment matches a pattern: `*` stands for any characters, `?` for one.
pub open spec fn segment_matches(pattern: Seq<char>, segment: Seq<char>) -> bool
    decreases pattern.len(), segment.len(),
{
    if pattern.len() == 0 {
        segment.len() == 0
    } else if pattern[0] == '*' {
        ||| segment_matches(pattern.drop_first(), segment)
        ||| segment.len() > 0 && segment_matches(pattern, segment.drop_first())
    } else {
        &&& segment.len() > 0
        &&& pattern[0] == '?' || pattern[0] == segment[0]
        &&& segment_matches(pattern.drop_first(), segment.drop_first())
    }
}

/// Whether a path matches a pattern, both given by their segments: `**` stands for any
/// segments, and the others are matched one by one.
pub open spec fn path_matches(pattern: Seq<Seq<char>>, path: Seq<Seq<char>>) -> bool
    decreases pattern.len(), path.len(),
{
    if pattern.len() == 0 {
        path.len() == 0
    } else if pattern[0] == "**"@ {
        ||| path_matches(pattern.drop_first(), path)
        ||| path.len() > 0 && path_matches(pattern, path.drop_first())
    } else {
        &&& path.len() > 0
        &&& segment_matches(pattern[0], path[0])
        &&& path_matches(pattern.drop_first(), path.drop_first())
    }
}

/// The segments of a pattern. One of a single segment matches at any depth.
pub open spec fn glob_segments(pattern: Seq<char>) -> Seq<Seq<char>> {
    let parts = split(pattern, '/');
    if parts.len() == 1 {
        seq!["**"@, parts[0]]
    } else {
        parts
    }
}

/// Whether a pattern covers a path: the path matches it, or a directory above the path does.
pub open spec fn covers(pattern: Seq<char>, path: Seq<Seq<char>>) -> bool {
    exists|n: int|
        0 <= n <= path.len() && path_matches(glob_segments(pattern), #[trigger] path.take(n))
}

/// A row of `n` cells, none of them set.
fn clear_row(n: usize) -> (r: Vec<bool>)
    ensures
        r@ == Seq::new(n as nat, |j: int| false),
{
    let mut row: Vec<bool> = Vec::new();
    let mut k: usize = 0;
    while k < n
        invariant
            k <= n,
            row@ == Seq::new(k as nat, |j: int| false),
        decreases n - k,
    {
        row.push(false);
        assert(row@ =~= Seq::new((k + 1) as nat, |j: int| false));
        k += 1;
    }
    row
}

/// Decides whether a segment matches a pattern.
pub fn match_segment(pattern: &str, segment: &str) -> (r: bool)
    ensures
        r == segment_matches(pattern@, segment@),
{
    let p = char_vec(pattern);
    let t = char_vec(segment);
    let mut row = clear_row(t.len());
    row.push(true);
    let mut i: usize = p.len();
    assert forall|j: int| 0 <= j <= t@.len() implies #[trigger] row@[j] == segment_matches(
        p@.skip(i as int),
        t@.skip(j),
    ) by {}
    // `row[j]` compares what follows the first `i` characters of the pattern with what follows
    // the first `j` of the segment.
    while i > 0
        invariant
            i <= p@.len(),
            row@.len() == t@.len() + 1,
            forall|j: int|
                0 <= j <= t@.len() ==> #[trigger] row@[j] == segment_matches(
                    p@.skip(i as int),
                    t@.skip(j),
                ),
        decreases i,
    {
        let ghost rest = p@.skip(i as int);
        i -= 1;
        let ghost this = p@.skip(i as int);
        assert(this.drop_first() =~= rest);
        let c = p[i];
        let mut above = clear_row(t.len());
        above.push(false);
        let mut j: usize = row.len();
        while j > 0
            invariant
                j <= row@.len(),
                row@.len() == t@.len() + 1,
                above@.len() == t@.len() + 1,
                this.len() > 0,
                this.drop_first() == rest,
                this[0] == c,
                forall|m: int|
                    0 <= m <= t@.len() ==> #[trigger] row@[m] == segment_matches(
                        rest,
                        t@.skip(m),
                    ),
                forall|m: int|
                    j <= m <= t@.len() ==> #[trigger] above@[m] == segment_matches(
                        this,
                        t@.skip(m),
                    ),
            decreases j,
        {
            j -= 1;
            let ghost left = t@.skip(j as int);
            if j < t.len() {
                assert(left.drop_first() =~= t@.skip(j + 1));
                assert(left[0] == t@[j as int]);
            }
            let here = if c == '*' {
                row[j] || (j < t.len() && above[j + 1])
            } else {
                j < t.len() && (c == '?' || c == t[j]) && row[j + 1]
            };
            assert(here == segment_matches(this, left));
            above.set(j, here);
        }
        row = above;
    }
    assert(p@.skip(0) =~= p@);
    assert(t@.skip(0) =~= t@);
    row[0]
}

/// Decides whether the first `n` segments of a path match a pattern.
fn match_path(pattern: &Vec<String>, path: &Vec<String>, n: usize) -> (r: bool)
    requires
        n <= path@.len(),
    ensures
        r == path_matches(texts(pattern@), texts(path@).take(n as int)),
{
    let ghost p = texts(pattern@);
    let ghost t = texts(path@).take(n as int);
    let mut row = clear_row(n);
    row.push(true);
    let mut i: usize = pattern.len();
    assert forall|j: int| 0 <= j <= n implies #[trigger] row@[j] == path_matches(
        p.skip(i as int),
        t.skip(j),
    ) by {}
    // `row[j]` compares what follows the first `i` segments of the pattern with what follows
    // the first `j` of the path.
    while i > 0
        invariant
            i <= pattern@.len(),
            n <= path@.len(),
            p == texts(pattern@),
            t == texts(path@).take(n as int),
            row@.len() == n + 1,
            forall|j: int|
                0 <= j <= n ==> #[trigger] row@[j] == path_matches(p.skip(i as int), t.skip(j)),
        decreases i,
    {
        let ghost rest = p.skip(i as int);
        i -= 1;
        let ghost this = p.skip(i as int);
        assert(this.drop_first() =~= rest);
        let any = same_text(pattern[i].as_str(), "**");
        let mut above = clear_row(n);
        above.push(false);
        let mut j: usize = row.len();
        while j > 0
            invariant
                i < pattern@.len(),
                n <= path@.len(),
                t == texts(path@).take(n as int),
                j <= row@.len(),
                row@.len() == n + 1,
                above@.len() == n + 1,
                this.len() > 0,
                this.drop_first() == rest,
                this[0] == pattern@[i as int]@,
                any == (this[0] == "**"@),
                forall|m: int|
                    0 <= m <= n ==> #[trigger] row@[m] == path_matches(rest, t.skip(m)),
                forall|m: int|
                    j <= m <= n ==> #[trigger] above@[m] == path_matches(this, t.skip(m)),
            decreases j,
        {
            j -= 1;
            let ghost left = t.skip(j as int);
            if j < n {
                assert(left.drop_first() =~= t.skip(j + 1));
                assert(left[0] == path@[j as int]@);
            }
            let here = if any {
                row[j] || (j < n && above[j + 1])
            } else {
                j < n && match_segment(pattern[i].as_str(), path[j].as_str()) && row[j + 1]
            };
            assert(here == path_matches(this, left));
            above.set(j, here);
        }
        row = above;
    }
    assert(p.skip(0) =~= p);
    assert(t.skip(0) =~= t);
    row[0]
}

/// Decides whether a pattern covers a path.
pub fn glob_covers(pattern: &str, path: &Vec<String>) -> (r: bool)
    ensures
        r == covers(pattern@, texts(path@)),
{
    let parts = split_text(pattern, '/');
    let mut glob: Vec<String> = Vec::new();
    if parts.len() == 1 {
        glob.push("**".to_owned());
        glob.push(parts[0].clone());
        assert(texts(glob@) =~= seq!["**"@, texts(parts@)[0]]);
    } else {
        glob = parts;
    }
    assert(texts(glob@) == glob_segments(pattern@));
    let mut n: usize = 0;
    loop
        invariant
            n <= path@.len(),
            texts(glob@) == glob_segments(pattern@),
            forall|m: int|
                0 <= m < n ==> !path_matches(
                    glob_segments(pattern@),
                    #[trigger] texts(path@).take(m),
                ),
        decreases path@.len() - n,
    {
        if match_path(&glob, path, n) {
            assert(path_matches(glob_segments(pattern@), texts(path@).take(n as int)));
            return true;
        }
        if n == path.len() {
            return false;
        }
        n += 1;
    }
}

/// A text without `*` and `?` matches itself alone.
proof fn lemma_literal_segment(pattern: Seq<char>, segment: Seq<char>)
    requires
        !pattern.contains('*'),
        !pattern.contains('?'),
    ensures
        segment_matches(pattern, segment) <==> pattern == segment,
    decreases pattern.len(),
{
    if pattern.len() > 0 {
        assert(pattern.contains(pattern[0]));
        let rest = pattern.drop_first();
        assert forall|c: char| rest.contains(c) implies pattern.contains(c) by {
            let i = choose|i: int| 0 <= i < rest.len() && rest[i] == c;
            assert(pattern[i + 1] == c);
        }
        if segment.len() > 0 {
            lemma_literal_segment(rest, segment.drop_first());
            assert(pattern =~= seq![pattern[0]] + rest);
            assert(segment =~= seq![segment[0]] + segment.drop_first());
        }
    } else {
        assert(segment.len() == 0 ==> pattern =~= segment);
    }
}

/// `*` matches every segment.
proof fn lemma_star_segment(segment: Seq<char>)
    ensures
        segment_matches(seq!['*'], segment),
    decreases segment.len(),
{
    let star = seq!['*'];
    assert(star.drop_first() =~= Seq::<char>::empty());
    if segment.len() > 0 {
        lemma_star_segment(segment.drop_first());
    } else {
        assert(segment_matches(star.drop_first(), segment));
    }
}

/// One segment of a path matches a pattern of one segment.
proof fn lemma_single_path(part: Seq<char>, path: Seq<Seq<char>>)
    requires
        part != "**"@,
    ensures
        path_matches(seq![part], path) <==> path.len() == 1 && segment_matches(part, path[0]),
{
    let one = seq![part];
    assert(one.drop_first() =~= Seq::<Seq<char>>::empty());
    if path.len() > 0 {
        assert(path_matches(one.drop_first(), path.drop_first()) <==> path.len() == 1);
    }
}

/// After `**`, one segment is matched by the last segment of a path.
proof fn lemma_any_depth(part: Seq<char>, path: Seq<Seq<char>>)
    requires
        part != "**"@,
    ensures
        path_matches(seq!["**"@, part], path) <==> path.len() > 0 && segment_matches(
            part,
            path.last(),
        ),
    decreases path.len(),
{
    let two = seq!["**"@, part];
    assert(two.drop_first() =~= seq![part]);
    lemma_single_path(part, path);
    if path.len() > 0 {
        lemma_any_depth(part, path.drop_first());
        if path.len() > 1 {
            assert(path.drop_first().last() == path.last());
        }
    }
}

/// A pattern of one segment, and the same one after `**/`, cover a path when one of its
/// segments matches.
pub proof fn single_segment_covers(part: Seq<char>, path: Seq<Seq<char>>)
    requires
        !part.contains('/'),
        part != "**"@,
    ensures
        covers(part, path) <==> exists|i: int|
            0 <= i < path.len() && segment_matches(part, #[trigger] path[i]),
        covers("**/"@ + part, path) <==> covers(part, path),
{
    reveal_strlit("**");
    reveal_strlit("**/");
    let any = "**"@;
    split_of_join(seq![part], '/');
    let long = "**/"@ + part;
    assert(long =~= join(seq![any, part], seq!['/'])) by {
        reveal_with_fuel(join, 3);
    }
    split_of_join(seq![any, part], '/');
    assert(glob_segments(part) =~= seq![any, part]);
    assert(glob_segments(long) =~= seq![any, part]);
    assert forall|n: int| 0 <= n <= path.len() implies path_matches(
        seq![any, part],
        #[trigger] path.take(n),
    ) == (n > 0 && segment_matches(part, path[n - 1])) by {
        lemma_any_depth(part, path.take(n));
    }
    if covers(part, path) {
        let n = choose|n: int|
            0 <= n <= path.len() && path_matches(glob_segments(part), #[trigger] path.take(n));
        assert(segment_matches(part, path[n - 1]));
    }
    if exists|i: int| 0 <= i < path.len() && segment_matches(part, #[trigger] path[i]) {
        let i = choose|i: int| 0 <= i < path.len() && segment_matches(part, #[trigger] path[i]);
        assert(path_matches(seq![any, part], path.take(i + 1)));
    }
}

/// A plain name, and the name after `**/`, cover a path when one of its segments is the name.
pub proof fn plain_name_covers(name: Seq<char>, path: Seq<Seq<char>>)
    requires
        !name.contains('/'),
        !name.contains('*'),
        !name.contains('?'),
    ensures
        covers(name, path) <==> path.contains(name),
        covers("**/"@ + name, path) <==> path.contains(name),
{
    reveal_strlit("**");
    assert("**"@[0] == '*');
    assert("**"@.contains('*'));
    single_segment_covers(name, path);
    assert forall|i: int| 0 <= i < path.len() implies segment_matches(name, #[trigger] path[i])
        == (path[i] == name) by {
        lemma_literal_segment(name, path[i]);
    }
    if path.contains(name) {
        let i = choose|i: int| 0 <= i < path.len() && path[i] == name;
        assert(segment_matches(name, path[i]));
    }
}

/// A name that ends in `*` covers a path when one of its segments starts with what stands
/// before the `*`.
pub proof fn name_prefix_covers(prefix: Seq<char>, path: Seq<Seq<char>>)
    requires
        prefix.len() > 0,
        !prefix.contains('/'),
        !prefix.contains('*'),
        !prefix.contains('?'),
    ensures
        covers(prefix.push('*'), path) <==> exists|i: int|
            0 <= i < path.len() && has_prefix(#[trigger] path[i], prefix),
        covers("**/"@ + prefix.push('*'), path) <==> covers(prefix.push('*'), path),
{
    let part = prefix.push('*');
    reveal_strlit("**");
    assert(part[0] == prefix[0] && prefix.contains(prefix[0]));
    assert("**"@[0] == '*');
    assert(!part.contains('/')) by {
        if part.contains('/') {
            let i = choose|i: int| 0 <= i < part.len() && part[i] == '/';
            assert(prefix[i] == '/');
        }
    }
    single_segment_covers(part, path);
    assert forall|i: int| 0 <= i < path.len() implies segment_matches(part, #[trigger] path[i])
        == has_prefix(path[i], prefix) by {
        lemma_prefix_segment(prefix, path[i]);
    }
    if exists|i: int| 0 <= i < path.len() && has_prefix(#[trigger] path[i], prefix) {
        let i = choose|i: int| 0 <= i < path.len() && has_prefix(#[trigger] path[i], prefix);
        assert(segment_matches(part, path[i]));
    }
}

proof fn lemma_prefix_segment(prefix: Seq<char>, segment: Seq<char>)
    requires
        !prefix.contains('*'),
        !prefix.contains('?'),
    ensures
        segment_matches(prefix.push('*'), segment) <==> has_prefix(segment, prefix),
    decreases prefix.len(),
{
    let part = prefix.push('*');
    if prefix.len() == 0 {
        assert(part =~= seq!['*']);
        lemma_star_segment(segment);
        assert(segment.take(0) =~= prefix);
    } else {
        assert(prefix.contains(prefix[0]));
        let rest = prefix.drop_first();
        assert(part.drop_first() =~= rest.push('*'));
        assert forall|c: char| rest.contains(c) implies prefix.contains(c) by {
            let i = choose|i: int| 0 <= i < rest.len() && rest[i] == c;
            assert(prefix[i + 1] == c);
        }
        if segment.len() > 0 {
            lemma_prefix_segment(rest, segment.drop_first());
            if segment.len() >= prefix.len() {
                let n = prefix.len() as int;
                assert(segment.take(n) =~= seq![segment[0]] + segment.drop_first().take(n - 1));
                assert(prefix =~= seq![prefix[0]] + rest);
                assert(seq![prefix[0]] + rest == seq![segment[0]] + segment.drop_first().take(
                    n - 1,
                ) ==> rest =~= segment.drop_first().take(n - 1)) by {
                    let a = seq![prefix[0]] + rest;
                    let b = seq![segment[0]] + segment.drop_first().take(n - 1);
                    if a == b {
                        assert(rest =~= a.drop_first());
                        assert(segment.drop_first().take(n - 1) =~= b.drop_first());
                    }
                }
            }
        }
    }
}

} // verus!
