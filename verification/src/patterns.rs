//! What patterns match, which paths are ignored and watched, and what config files may hold.

use crate::config::{
    fault_prefix, file_text, first_intercept_expr, format_of, write_fault_text, ConfigFault,
    ConfigFormat, WriteFault,
};
use crate::evaluator::{every_expr_is_found, first_expr, has_expr};
use crate::glob::{covers, glob_segments, path_matches, segment_matches};
use crate::hmr::{below, ignored, message_of, watch_warnings, watched};
use crate::options::OptionsView;
use crate::readings::numbers;
use crate::text::split;
use vstd::prelude::*;

verus! {

/// A pattern in two parts matches what can be cut so that each part matches its part.
pub proof fn patterns_match_part_by_part(a: Seq<char>, b: Seq<char>, segment: Seq<char>)
    ensures
        segment_matches(a + b, segment) <==> exists|k: int|
            0 <= k <= segment.len() && segment_matches(a, #[trigger] segment.take(k))
                && segment_matches(b, segment.skip(k)),
    decreases a.len(), segment.len(),
{
    let all = a + b;
    if a.len() == 0 {
        assert(all =~= b);
        assert(segment.skip(0) =~= segment);
        if segment_matches(b, segment) {
            assert(segment_matches(a, segment.take(0)));
        }
        if exists|k: int|
            0 <= k <= segment.len() && segment_matches(a, #[trigger] segment.take(k))
                && segment_matches(b, segment.skip(k)) {
            let k = choose|k: int|
                0 <= k <= segment.len() && segment_matches(a, #[trigger] segment.take(k))
                    && segment_matches(b, segment.skip(k));
            assert(segment.take(k).len() == 0);
        }
    } else {
        let rest = a.drop_first();
        assert(all.drop_first() =~= rest + b);
        assert(all[0] == a[0]);
        if segment_matches(all, segment) {
            let k = lemma_cut(a, b, segment);
            assert(segment_matches(a, segment.take(k)));
        }
        if exists|k: int|
            0 <= k <= segment.len() && segment_matches(a, #[trigger] segment.take(k))
                && segment_matches(b, segment.skip(k)) {
            let k = choose|k: int|
                0 <= k <= segment.len() && segment_matches(a, #[trigger] segment.take(k))
                    && segment_matches(b, segment.skip(k));
            lemma_uncut(a, b, segment, k);
        }
    }
}

proof fn lemma_cut(a: Seq<char>, b: Seq<char>, segment: Seq<char>) -> (k: int)
    requires
        segment_matches(a + b, segment),
    ensures
        0 <= k <= segment.len(),
        segment_matches(a, segment.take(k)),
        segment_matches(b, segment.skip(k)),
    decreases a.len(), segment.len(),
{
    let all = a + b;
    if a.len() == 0 {
        assert(all =~= b);
        assert(segment.skip(0) =~= segment);
        assert(segment.take(0).len() == 0);
        0
    } else {
        let rest = a.drop_first();
        assert(all.drop_first() =~= rest + b);
        assert(all[0] == a[0]);
        if a[0] == '*' {
            if segment_matches(all.drop_first(), segment) {
                lemma_cut(rest, b, segment)
            } else {
                let tail = segment.drop_first();
                let k = lemma_cut(a, b, tail);
                assert(segment.take(k + 1).drop_first() =~= tail.take(k));
                assert(segment.skip(k + 1) =~= tail.skip(k));
                k + 1
            }
        } else {
            let tail = segment.drop_first();
            let k = lemma_cut(rest, b, tail);
            assert(segment.take(k + 1).drop_first() =~= tail.take(k));
            assert(segment.skip(k + 1) =~= tail.skip(k));
            assert(segment.take(k + 1)[0] == segment[0]);
            k + 1
        }
    }
}

proof fn lemma_uncut(a: Seq<char>, b: Seq<char>, segment: Seq<char>, k: int)
    requires
        0 <= k <= segment.len(),
        segment_matches(a, segment.take(k)),
        segment_matches(b, segment.skip(k)),
    ensures
        segment_matches(a + b, segment),
    decreases a.len(), k,
{
    let all = a + b;
    let part = segment.take(k);
    if a.len() == 0 {
        assert(all =~= b);
        assert(segment.skip(0) =~= segment);
    } else {
        let rest = a.drop_first();
        assert(all.drop_first() =~= rest + b);
        assert(all[0] == a[0]);
        if a[0] == '*' && segment_matches(rest, part) {
            lemma_uncut(rest, b, segment, k);
        } else {
            let tail = segment.drop_first();
            assert(part.drop_first() =~= tail.take(k - 1));
            assert(segment.skip(k) =~= tail.skip(k - 1));
            assert(part[0] == segment[0]);
            if a[0] == '*' {
                lemma_uncut(a, b, tail, k - 1);
            } else {
                lemma_uncut(rest, b, tail, k - 1);
            }
        }
    }
}

/// A star matches everything, a question mark any one character, any other character itself, and
/// the empty pattern nothing but the empty segment.
pub proof fn characters_match_themselves(c: char, segment: Seq<char>)
    ensures
        c == '*' ==> segment_matches(seq![c], segment),
        c == '?' ==> (segment_matches(seq![c], segment) <==> segment.len() == 1),
        c != '*' && c != '?' ==> (segment_matches(seq![c], segment) <==> segment == seq![c]),
        segment_matches(seq![], segment) <==> segment.len() == 0,
    decreases segment.len(),
{
    reveal_with_fuel(segment_matches, 3);
    assert(seq![c].drop_first() =~= Seq::<char>::empty());
    if segment.len() > 0 {
        if c == '*' {
            characters_match_themselves(c, segment.drop_first());
        } else if segment.len() == 1 {
            assert(segment =~= seq![segment[0]]);
        }
    }
}

/// A pattern of segments in two parts matches the paths that can be cut so that each part matches
/// its part.
pub proof fn path_patterns_match_part_by_part(
    a: Seq<Seq<char>>,
    b: Seq<Seq<char>>,
    path: Seq<Seq<char>>,
)
    ensures
        path_matches(a + b, path) <==> exists|k: int|
            0 <= k <= path.len() && path_matches(a, #[trigger] path.take(k)) && path_matches(
                b,
                path.skip(k),
            ),
{
    if path_matches(a + b, path) {
        let k = lemma_cut_path(a, b, path);
        assert(path_matches(a, path.take(k)));
    }
    if exists|k: int|
        0 <= k <= path.len() && path_matches(a, #[trigger] path.take(k)) && path_matches(
            b,
            path.skip(k),
        ) {
        let k = choose|k: int|
            0 <= k <= path.len() && path_matches(a, #[trigger] path.take(k)) && path_matches(
                b,
                path.skip(k),
            );
        lemma_uncut_path(a, b, path, k);
    }
}

proof fn lemma_cut_path(a: Seq<Seq<char>>, b: Seq<Seq<char>>, path: Seq<Seq<char>>) -> (k: int)
    requires
        path_matches(a + b, path),
    ensures
        0 <= k <= path.len(),
        path_matches(a, path.take(k)),
        path_matches(b, path.skip(k)),
    decreases a.len(), path.len(),
{
    let all = a + b;
    if a.len() == 0 {
        assert(all =~= b);
        assert(path.skip(0) =~= path);
        assert(path.take(0).len() == 0);
        0
    } else {
        let rest = a.drop_first();
        assert(all.drop_first() =~= rest + b);
        assert(all[0] == a[0]);
        if a[0] == "**"@ {
            if path_matches(all.drop_first(), path) {
                lemma_cut_path(rest, b, path)
            } else {
                let tail = path.drop_first();
                let k = lemma_cut_path(a, b, tail);
                assert(path.take(k + 1).drop_first() =~= tail.take(k));
                assert(path.skip(k + 1) =~= tail.skip(k));
                k + 1
            }
        } else {
            let tail = path.drop_first();
            let k = lemma_cut_path(rest, b, tail);
            assert(path.take(k + 1).drop_first() =~= tail.take(k));
            assert(path.skip(k + 1) =~= tail.skip(k));
            assert(path.take(k + 1)[0] == path[0]);
            k + 1
        }
    }
}

proof fn lemma_uncut_path(a: Seq<Seq<char>>, b: Seq<Seq<char>>, path: Seq<Seq<char>>, k: int)
    requires
        0 <= k <= path.len(),
        path_matches(a, path.take(k)),
        path_matches(b, path.skip(k)),
    ensures
        path_matches(a + b, path),
    decreases a.len(), k,
{
    let all = a + b;
    let part = path.take(k);
    if a.len() == 0 {
        assert(all =~= b);
        assert(path.skip(0) =~= path);
    } else {
        let rest = a.drop_first();
        assert(all.drop_first() =~= rest + b);
        assert(all[0] == a[0]);
        if a[0] == "**"@ && path_matches(rest, part) {
            lemma_uncut_path(rest, b, path, k);
        } else {
            let tail = path.drop_first();
            assert(part.drop_first() =~= tail.take(k - 1));
            assert(path.skip(k) =~= tail.skip(k - 1));
            assert(part[0] == path[0]);
            if a[0] == "**"@ {
                lemma_uncut_path(a, b, tail, k - 1);
            } else {
                lemma_uncut_path(rest, b, tail, k - 1);
            }
        }
    }
}

/// Two stars match every path, any other segment the paths of one segment that it matches, and no
/// segment nothing but the empty path.
pub proof fn segments_match_one_each(part: Seq<char>, path: Seq<Seq<char>>)
    ensures
        part == seq!['*', '*'] ==> path_matches(seq![part], path),
        part != seq!['*', '*'] ==> (path_matches(seq![part], path) <==> path.len() == 1
            && segment_matches(part, path[0])),
        path_matches(seq![], path) <==> path.len() == 0,
    decreases path.len(),
{
    reveal_strlit("**");
    assert("**"@ =~= seq!['*', '*']);
    assert(seq![part].drop_first() =~= Seq::<Seq<char>>::empty());
    assert(path_matches(Seq::<Seq<char>>::empty(), path) <==> path.len() == 0);
    if path.len() > 0 {
        assert(path_matches(Seq::<Seq<char>>::empty(), path.drop_first()) <==> path.len() == 1);
        if part == "**"@ {
            segments_match_one_each(part, path.drop_first());
        }
    }
}

/// A pattern without a slash is matched at any depth; one with slashes from the start of the path.
/// A path is covered where the pattern matches it or an ancestor of it.
pub proof fn patterns_cover_what_is_below(pattern: Seq<char>, path: Seq<Seq<char>>)
    ensures
        split(pattern, '/').len() == 1 ==> glob_segments(pattern) == seq![
            seq!['*', '*'],
            split(pattern, '/')[0],
        ],
        split(pattern, '/').len() != 1 ==> glob_segments(pattern) == split(pattern, '/'),
        covers(pattern, path) <==> exists|n: int|
            0 <= n <= path.len() && path_matches(glob_segments(pattern), #[trigger] path.take(n)),
{
    reveal_strlit("**");
    assert("**"@ =~= seq!['*', '*']);
}

/// What a pattern covers it covers with everything below.
pub proof fn covered_paths_cover_below(
    pattern: Seq<char>,
    path: Seq<Seq<char>>,
    more: Seq<Seq<char>>,
)
    requires
        covers(pattern, path),
    ensures
        covers(pattern, path + more),
{
    let n = choose|n: int|
        0 <= n <= path.len() && path_matches(glob_segments(pattern), #[trigger] path.take(n));
    assert((path + more).take(n) =~= path.take(n));
}

/// A path below the base is taken from the base on; any other is taken whole.
pub proof fn paths_are_relative_to_the_base(
    base: Seq<Seq<char>>,
    rest: Seq<Seq<char>>,
    path: Seq<Seq<char>>,
)
    ensures
        below(base, base + rest) == rest,
        (forall|tail: Seq<Seq<char>>| path != #[trigger] (base + tail)) ==> below(base, path)
            == path,
{
    assert((base + rest).take(base.len() as int) =~= base);
    assert((base + rest).skip(base.len() as int) =~= rest);
    if base.len() <= path.len() && path.take(base.len() as int) == base {
        assert(path =~= base + path.skip(base.len() as int));
    }
}

/// A path is ignored where one of the patterns covers it; more patterns ignore no less.
pub proof fn one_pattern_is_enough(
    a: Seq<Seq<char>>,
    b: Seq<Seq<char>>,
    pattern: Seq<char>,
    path: Seq<Seq<char>>,
)
    ensures
        ignored(a + b, path) <==> ignored(a, path) || ignored(b, path),
        ignored(seq![pattern], path) <==> covers(pattern, path),
        !ignored(seq![], path),
{
    if ignored(a, path) {
        let i = choose|i: int| 0 <= i < a.len() && covers(#[trigger] a[i], path);
        assert(covers((a + b)[i], path));
    }
    if ignored(b, path) {
        let i = choose|i: int| 0 <= i < b.len() && covers(#[trigger] b[i], path);
        assert(covers((a + b)[a.len() + i], path));
    }
    if ignored(a + b, path) {
        let i = choose|i: int| 0 <= i < (a + b).len() && covers(#[trigger] (a + b)[i], path);
        if i < a.len() {
            assert(covers(a[i], path));
        } else {
            assert(covers(b[i - a.len()], path));
        }
    }
    if covers(pattern, path) {
        assert(covers(seq![pattern][0], path));
    }
}

/// Watched are the paths without an error; each of the others gives a warning that names the path
/// and the error. Both keep the order of the paths.
pub proof fn paths_are_watched_or_warned_of(
    paths: Seq<Seq<char>>,
    errors: Seq<Option<Seq<char>>>,
)
    ensures
        watched(paths, errors) == numbers(paths.len()).filter(
            |i: int| errors[i] is None,
        ).map_values(|i: int| paths[i]),
        watch_warnings(paths, errors) == numbers(paths.len()).filter(
            |i: int| errors[i] is Some,
        ).map_values(|i: int| "cannot watch "@ + paths[i] + ": "@ + errors[i]->0),
    decreases paths.len(),
{
    reveal(Seq::filter);
    let fine = |i: int| errors[i] is None;
    let fails = |i: int| errors[i] is Some;
    let path = |i: int| paths[i];
    let warning = |i: int| "cannot watch "@ + paths[i] + ": "@ + errors[i]->0;
    if paths.len() > 0 {
        let front = paths.drop_last();
        let n: int = paths.len() - 1;
        paths_are_watched_or_warned_of(front, errors);
        assert(numbers(paths.len()).drop_last() =~= numbers(front.len()));
        assert(numbers(paths.len()).last() == n);
        let a = numbers(front.len()).filter(fine);
        let b = numbers(front.len()).filter(fails);
        assert forall|k: int| 0 <= k < a.len() implies 0 <= #[trigger] a[k] < n by {
            assert(a.contains(a[k]));
            numbers(front.len()).lemma_filter_contains_rev(fine, a[k]);
        }
        assert forall|k: int| 0 <= k < b.len() implies 0 <= #[trigger] b[k] < n by {
            assert(b.contains(b[k]));
            numbers(front.len()).lemma_filter_contains_rev(fails, b[k]);
        }
        assert(a.map_values(|i: int| front[i]) =~= a.map_values(path));
        assert(b.map_values(|i: int| "cannot watch "@ + front[i] + ": "@ + errors[i]->0)
            =~= b.map_values(warning));
        assert(a.push(n).map_values(path) =~= a.map_values(path).push(path(n)));
        assert(b.push(n).map_values(warning) =~= b.map_values(warning).push(warning(n)));
    }
    assert(watched(paths, errors) =~= numbers(paths.len()).filter(fine).map_values(path));
    assert(watch_warnings(paths, errors) =~= numbers(paths.len()).filter(fails).map_values(
        warning,
    ));
}

/// What is said of an invalid field, in Chinese where that is asked for and else in English. The
/// fields that have a message of their own have it in the two languages that are known; other
/// languages get the general one.
pub proof fn invalid_fields_have_messages(locale: Seq<char>, field: Seq<char>)
    ensures
        message_of("zh-CN"@, "debounce"@) == "hmr.config.debounce: 必须为正整数"@,
        message_of("zh-CN"@, "root"@) == "hmr.config.root: 不能为空数组"@,
        message_of("en-US"@, "debounce"@) == "hmr.config.debounce: must be a positive integer"@,
        message_of("en-US"@, "root"@) == "hmr.config.root: must be a non-empty array"@,
        field != "debounce"@ && field != "root"@ ==> message_of("zh-CN"@, field)
            == "hmr.config."@ + field + ": 配置无效"@,
        field != "debounce"@ && field != "root"@ && locale != "zh-CN"@ ==> message_of(
            locale,
            field,
        ) == "hmr.config."@ + field + ": invalid value"@,
        locale != "zh-CN"@ && locale != "en-US"@ ==> message_of(locale, field) == "hmr.config."@
            + field + ": invalid value"@,
{
    reveal_strlit("zh-CN");
    reveal_strlit("en-US");
    reveal_strlit("debounce");
    reveal_strlit("root");
    assert("zh-CN"@[0] != "en-US"@[0]);
    assert("debounce"@.len() != "root"@.len());
}

/// Config files are told by their extension.
pub proof fn extensions_tell_formats(extension: Seq<char>)
    ensures
        format_of("json"@) == Some(ConfigFormat::Json),
        format_of("yaml"@) == Some(ConfigFormat::Yaml),
        format_of("yml"@) == Some(ConfigFormat::Yaml),
        format_of(extension) is Some ==> extension == "json"@ || extension == "yaml"@ || extension
            == "yml"@,
{
    reveal_strlit("json");
    reveal_strlit("yaml");
    reveal_strlit("yml");
    assert("json"@[0] != "yaml"@[0]);
    assert("json"@[0] != "yml"@[0]);
}

/// Every fault of a config file is told by its beginning.
pub proof fn faults_are_told(error: Seq<char>)
    ensures
        fault_prefix(ConfigFault::Read) == "cannot read config file "@,
        fault_prefix(ConfigFault::Json) == "invalid json in "@,
        fault_prefix(ConfigFault::Yaml) == "invalid yaml in "@,
        fault_prefix(ConfigFault::Content) == "invalid config in "@,
        write_fault_text(WriteFault::Readonly, error) == "cannot overwrite readonly config"@,
        write_fault_text(WriteFault::Write, error) == "cannot write config file: "@ + error,
        write_fault_text(WriteFault::Rename, error) == "cannot rename config file: "@ + error,
        file_text(Err(error)) == Err::<Seq<char>, Seq<char>>("cannot serialize config: "@ + error),
        forall|text: Seq<char>| #[trigger]
            file_text(Ok(text)) == Ok::<Seq<char>, Seq<char>>(text),
{
}

/// A list of options is refused where an intercept of it holds an expression, at any depth; the
/// first one is named. Expressions in other fields are no reason.
pub proof fn intercepts_hold_no_expressions(configs: Seq<OptionsView>)
    ensures
        match first_intercept_expr(configs) {
            Some(found) => exists|i: int|
                {
                    &&& 0 <= i < configs.len()
                    &&& (#[trigger] configs[i]).intercept is Some
                    &&& has_expr(configs[i].intercept->0)
                    &&& first_expr(configs[i].intercept->0) == Some(found)
                    &&& forall|j: int|
                        0 <= j < i ==> (#[trigger] configs[j]).intercept is None || !has_expr(
                            configs[j].intercept->0,
                        )
                },
            None => forall|i: int|
                0 <= i < configs.len() ==> (#[trigger] configs[i]).intercept is None || !has_expr(
                    configs[i].intercept->0,
                ),
        },
    decreases configs.len(),
{
    if configs.len() > 0 {
        let front = configs.drop_last();
        let n: int = configs.len() - 1;
        intercepts_hold_no_expressions(front);
        if let Some(intercept) = configs.last().intercept {
            every_expr_is_found(intercept);
        }
        match first_intercept_expr(front) {
            Some(found) => {
                let i = choose|i: int|
                    {
                        &&& 0 <= i < front.len()
                        &&& (#[trigger] front[i]).intercept is Some
                        &&& has_expr(front[i].intercept->0)
                        &&& first_expr(front[i].intercept->0) == Some(found)
                        &&& forall|j: int|
                            0 <= j < i ==> (#[trigger] front[j]).intercept is None || !has_expr(
                                front[j].intercept->0,
                            )
                    };
                assert(configs[i] == front[i]);
                assert forall|j: int| 0 <= j < i implies (#[trigger] configs[j]).intercept is None
                    || !has_expr(configs[j].intercept->0) by {
                    assert(front[j] == configs[j]);
                }
            },
            None => {
                assert forall|j: int| 0 <= j < n implies (#[trigger] configs[j]).intercept is None
                    || !has_expr(configs[j].intercept->0) by {
                    assert(front[j] == configs[j]);
                }
                if first_intercept_expr(configs) is Some {
                    assert(configs[n].intercept is Some);
                }
            },
        }
    }
}

} // verus!
