//! Hot reload: its config, which file changes count, and where they go.

use crate::glob::{covers, glob_covers, name_prefix_covers, plain_name_covers};
use crate::options::{text_option, text_options};
use crate::text::{clone_texts, concat, concat3, has_prefix, same_text, texts};
use crate::tree::{Plugin, PluginView};
use vstd::prelude::*;

verus! {

/// The config of hot reload.
pub struct HmrConfig {
    /// Base directory for the roots and the ignored patterns.
    pub base: Option<String>,
    /// Directories to watch.
    pub root: Vec<String>,
    /// Debounce window in milliseconds.
    pub debounce: u64,
    /// Glob patterns to ignore, relative to the base.
    pub ignored: Vec<String>,
}

/// The hot reload service.
pub struct HmrService {
    /// The config.
    pub config: HmrConfig,
}

/// The directories that are watched by default.
pub fn default_root() -> (r: Vec<String>)
    ensures
        texts(r@) == seq!["."@],
{
    let mut out: Vec<String> = Vec::new();
    out.push(".".to_owned());
    assert(texts(out@) =~= seq!["."@]);
    out
}

/// The debounce window by default.
pub fn default_debounce() -> (r: u64)
    ensures
        r == 100,
{
    100
}

/// The patterns that are ignored by default.
pub fn default_ignored() -> (r: Vec<String>)
    ensures
        texts(r@) == seq!["**/node_modules"@, "**/.*"@, "cache"@, "data"@],
{
    let mut out: Vec<String> = Vec::new();
    out.push("**/node_modules".to_owned());
    out.push("**/.*".to_owned());
    out.push("cache".to_owned());
    out.push("data".to_owned());
    assert(texts(out@) =~= seq!["**/node_modules"@, "**/.*"@, "cache"@, "data"@]);
    out
}

impl Default for HmrConfig {
    fn default() -> (r: HmrConfig)
        ensures
            r.base is None,
            texts(r.root@) == seq!["."@],
            r.debounce == 100,
            texts(r.ignored@) == seq!["**/node_modules"@, "**/.*"@, "cache"@, "data"@],
    {
        HmrConfig {
            base: None,
            root: default_root(),
            debounce: default_debounce(),
            ignored: default_ignored(),
        }
    }
}

/// The plugin that watches files, applied by the callback `apply`.
pub fn hmr_plugin(apply: u64) -> (r: Plugin)
    ensures
        r@ == (PluginView {
            is_group: false,
            name: Some("hmr"@),
            inject: seq!["loader"@],
            apply,
        }),
{
    let mut inject: Vec<String> = Vec::new();
    inject.push("loader".to_owned());
    assert(texts(inject@) =~= seq!["loader"@]);
    Plugin { is_group: false, name: Some("hmr".to_owned()), inject, apply }
}

/// The debounce window that is used: at least a millisecond.
pub fn debounce_window(config: &HmrConfig) -> (r: u64)
    ensures
        r == (if config.debounce == 0 {
            1
        } else {
            config.debounce
        }),
{
    if config.debounce == 0 {
        1
    } else {
        config.debounce
    }
}

/// The segments of a path below a base; those of the whole path where it is not below it.
pub open spec fn below(base: Seq<Seq<char>>, path: Seq<Seq<char>>) -> Seq<Seq<char>> {
    if base.len() <= path.len() && path.take(base.len() as int) == base {
        path.skip(base.len() as int)
    } else {
        path
    }
}

/// Whether one of the patterns covers a path with these segments.
pub open spec fn ignored(patterns: Seq<Seq<char>>, segments: Seq<Seq<char>>) -> bool {
    exists|i: int| 0 <= i < patterns.len() && covers(#[trigger] patterns[i], segments)
}

/// The patterns that are ignored by default cover what lies in or below `node_modules`,
/// `cache`, `data` or a name that starts with a dot.
pub proof fn default_patterns_cover(segments: Seq<Seq<char>>)
    ensures
        ignored(seq!["**/node_modules"@, "**/.*"@, "cache"@, "data"@], segments) <==> exists|i: int|
            0 <= i < segments.len() && {
                ||| #[trigger] segments[i] == "node_modules"@
                ||| segments[i] == "cache"@
                ||| segments[i] == "data"@
                ||| has_prefix(segments[i], "."@)
            },
{
    reveal_strlit("**/node_modules");
    reveal_strlit("node_modules");
    reveal_strlit("**/.*");
    reveal_strlit("**/");
    reveal_strlit(".");
    reveal_strlit("cache");
    reveal_strlit("data");
    let patterns = seq!["**/node_modules"@, "**/.*"@, "cache"@, "data"@];
    assert("**/"@ + "node_modules"@ =~= "**/node_modules"@);
    assert("**/"@ + "."@.push('*') =~= "**/.*"@);
    plain_name_covers("node_modules"@, segments);
    name_prefix_covers("."@, segments);
    plain_name_covers("cache"@, segments);
    plain_name_covers("data"@, segments);
    assert(covers(patterns[0], segments) == segments.contains("node_modules"@));
    assert(covers(patterns[1], segments) == exists|i: int|
        0 <= i < segments.len() && has_prefix(#[trigger] segments[i], "."@));
    assert(covers(patterns[2], segments) == segments.contains("cache"@));
    assert(covers(patterns[3], segments) == segments.contains("data"@));
}

/// The segments of a path below a base.
pub fn relative_segments(base: &Vec<String>, path: &Vec<String>) -> (r: Vec<String>)
    ensures
        texts(r@) == below(texts(base@), texts(path@)),
{
    let ghost b = texts(base@);
    let ghost p = texts(path@);
    let mut is_below = base.len() <= path.len();
    let mut i: usize = 0;
    while i < base.len() && is_below
        invariant
            i <= base@.len(),
            b == texts(base@),
            p == texts(path@),
            is_below ==> base@.len() <= path@.len() && forall|j: int|
                0 <= j < i ==> b[j] == p[j],
            !is_below ==> !(b.len() <= p.len() && p.take(b.len() as int) == b),
        decreases base@.len() - i,
    {
        if base[i] != path[i] {
            assert(b[i as int] != p[i as int]);
            assert(p.take(b.len() as int)[i as int] == p[i as int]);
            is_below = false;
        }
        i += 1;
    }
    if !is_below {
        return clone_texts(path);
    }
    assert(p.take(b.len() as int) =~= b);
    let mut out: Vec<String> = Vec::new();
    let mut k: usize = base.len();
    assert(texts(out@) =~= p.subrange(b.len() as int, b.len() as int));
    while k < path.len()
        invariant
            base@.len() <= k <= path@.len(),
            b == texts(base@),
            p == texts(path@),
            texts(out@) == p.subrange(b.len() as int, k as int),
        decreases path@.len() - k,
    {
        let ghost before = texts(out@);
        out.push(path[k].clone());
        assert(texts(out@) =~= before.push(p[k as int]));
        assert(p.subrange(b.len() as int, k + 1) =~= p.subrange(b.len() as int, k as int).push(
            p[k as int],
        ));
        k += 1;
    }
    assert(p.subrange(b.len() as int, k as int) =~= p.skip(b.len() as int));
    out
}

/// Whether a change of the file at `path` is ignored, both paths given by their segments.
pub fn is_ignored(patterns: &Vec<String>, base: &Vec<String>, path: &Vec<String>) -> (r: bool)
    ensures
        r == ignored(texts(patterns@), below(texts(base@), texts(path@))),
{
    let segments = relative_segments(base, path);
    let ghost all = texts(patterns@);
    let mut i: usize = 0;
    while i < patterns.len()
        invariant
            i <= patterns@.len(),
            all == texts(patterns@),
            texts(segments@) == below(texts(base@), texts(path@)),
            forall|j: int|
                0 <= j < i ==> !covers(#[trigger] all[j], texts(segments@)),
        decreases patterns@.len() - i,
    {
        if glob_covers(patterns[i].as_str(), &segments) {
            assert(covers(all[i as int], texts(segments@)));
            return true;
        }
        i += 1;
    }
    false
}

/// The paths among `paths` that could be watched.
pub open spec fn watched(paths: Seq<Seq<char>>, errors: Seq<Option<Seq<char>>>) -> Seq<Seq<char>>
    decreases paths.len(),
{
    if paths.len() == 0 {
        Seq::empty()
    } else {
        let rest = watched(paths.drop_last(), errors);
        if errors[paths.len() - 1] is None {
            rest.push(paths.last())
        } else {
            rest
        }
    }
}

/// The warnings about the paths that could not be watched.
pub open spec fn watch_warnings(paths: Seq<Seq<char>>, errors: Seq<Option<Seq<char>>>) -> Seq<
    Seq<char>,
>
    decreases paths.len(),
{
    if paths.len() == 0 {
        Seq::empty()
    } else {
        let rest = watch_warnings(paths.drop_last(), errors);
        match errors[paths.len() - 1] {
            Some(error) => rest.push("cannot watch "@ + paths.last() + ": "@ + error),
            None => rest,
        }
    }
}

/// The running file watcher.
pub struct FileWatcher {
    /// The paths that are watched.
    pub watched: Vec<String>,
}

impl FileWatcher {
    /// A watcher, from the errors of watching each of the paths, none where it worked. The
    /// warnings to log come with it.
    pub fn start(paths: &Vec<String>, errors: &Vec<Option<String>>) -> (r: (
        FileWatcher,
        Vec<String>,
    ))
        requires
            errors@.len() == paths@.len(),
        ensures
            texts(r.0.watched@) == watched(texts(paths@), text_options(errors@)),
            texts(r.1@) == watch_warnings(texts(paths@), text_options(errors@)),
    {
        let ghost all = texts(paths@);
        let ghost faults = text_options(errors@);
        let mut good: Vec<String> = Vec::new();
        let mut warnings: Vec<String> = Vec::new();
        let mut i: usize = 0;
        assert(all.take(0) =~= Seq::<Seq<char>>::empty());
        assert(texts(good@) =~= Seq::<Seq<char>>::empty());
        assert(texts(warnings@) =~= Seq::<Seq<char>>::empty());
        while i < paths.len()
            invariant
                i <= paths@.len(),
                errors@.len() == paths@.len(),
                all == texts(paths@),
                faults == text_options(errors@),
                texts(good@) == watched(all.take(i as int), faults),
                texts(warnings@) == watch_warnings(all.take(i as int), faults),
            decreases paths@.len() - i,
        {
            assert(all.take(i + 1).drop_last() =~= all.take(i as int));
            assert(all.take(i + 1).last() == paths@[i as int]@);
            match &errors[i] {
                Some(error) => {
                    let mut warning = concat3("cannot watch ", paths[i].as_str(), ": ");
                    warning.append(error.as_str());
                    let ghost said = warning@;
                    let ghost before = texts(warnings@);
                    warnings.push(warning);
                    assert(texts(warnings@) =~= before.push(said));
                },
                None => {
                    let ghost before = texts(good@);
                    good.push(paths[i].clone());
                    assert(texts(good@) =~= before.push(paths@[i as int]@));
                },
            }
            i += 1;
        }
        assert(all.take(i as int) =~= all);
        (FileWatcher { watched: good }, warnings)
    }

    /// A watcher that could not be started, and the error to log.
    pub fn failed(error: &str) -> (r: (FileWatcher, String))
        ensures
            texts(r.0.watched@) == Seq::<Seq<char>>::empty(),
            r.1@ == "cannot start watcher: "@ + error@,
    {
        let none: Vec<String> = Vec::new();
        assert(texts(none@) =~= Seq::<Seq<char>>::empty());
        (FileWatcher { watched: none }, concat("cannot start watcher: ", error))
    }

    /// Stops the watcher; the paths come back, to be watched no more.
    pub fn stop(self) -> (r: Vec<String>)
        ensures
            r == self.watched,
    {
        self.watched
    }
}

/// The change that a watcher waits with.
pub struct Watch {
    pub pending: Option<String>,
}

impl Watch {
    /// No change waits.
    pub fn new() -> (r: Watch)
        ensures
            r.pending is None,
    {
        Watch { pending: None }
    }

    /// Notes a change, unless it is ignored; says whether the debounce window begins.
    pub fn change(&mut self, path: String, is_ignored: bool) -> (r: bool)
        ensures
            r == !is_ignored,
            final(self).pending == (if is_ignored {
                old(self).pending
            } else {
                Some(path)
            }),
            text_option(final(self).pending) == waiting_after(
                text_option(old(self).pending),
                path@,
                is_ignored,
            ),
    {
        if is_ignored {
            return false;
        }
        self.pending = Some(path);
        true
    }

    /// The debounce window is over: gives the change that waits, once.
    pub fn elapsed(&mut self) -> (r: Option<String>)
        ensures
            r == old(self).pending,
            final(self).pending is None,
    {
        let mut taken: Option<String> = None;
        std::mem::swap(&mut taken, &mut self.pending);
        taken
    }
}

/// The change that waits after another one, which may be ignored.
pub open spec fn waiting_after(pending: Option<Seq<char>>, path: Seq<char>, is_ignored: bool) -> Option<
    Seq<char>,
> {
    if is_ignored {
        pending
    } else {
        Some(path)
    }
}

/// The change that waits after a row of changes: the paths, each with whether it is ignored.
pub open spec fn waiting(changes: Seq<(Seq<char>, bool)>) -> Option<Seq<char>>
    decreases changes.len(),
{
    if changes.len() == 0 {
        None
    } else {
        waiting_after(waiting(changes.drop_last()), changes.last().0, changes.last().1)
    }
}

/// Of a row of changes the last one that is not ignored waits; where all are ignored, none does.
pub proof fn the_last_change_waits(changes: Seq<(Seq<char>, bool)>)
    ensures
        match waiting(changes) {
            Some(path) => exists|i: int|
                {
                    &&& 0 <= i < changes.len()
                    &&& #[trigger] changes[i] == (path, false)
                    &&& forall|j: int| i < j < changes.len() ==> (#[trigger] changes[j]).1
                },
            None => forall|i: int| 0 <= i < changes.len() ==> (#[trigger] changes[i]).1,
        },
    decreases changes.len(),
{
    if changes.len() > 0 {
        let front = changes.drop_last();
        let n: int = changes.len() - 1;
        the_last_change_waits(front);
        if !changes.last().1 {
            assert(changes[n] == (changes.last().0, false));
        } else {
            match waiting(front) {
                Some(path) => {
                    let i = choose|i: int|
                        {
                            &&& 0 <= i < front.len()
                            &&& #[trigger] front[i] == (path, false)
                            &&& forall|j: int| i < j < front.len() ==> (#[trigger] front[j]).1
                        };
                    assert(changes[i] == (path, false));
                    assert forall|j: int| i < j < changes.len() implies (#[trigger] changes[j]).1 by {
                        if j < n {
                            assert(front[j] == changes[j]);
                        }
                    }
                },
                None => {
                    assert forall|j: int| 0 <= j < changes.len() implies (#[trigger] changes[j]).1 by {
                        if j < n {
                            assert(front[j] == changes[j]);
                        }
                    }
                },
            }
        }
    }
}

/// The event that announces a change.
pub fn change_event(refreshed: bool) -> (r: Option<String>)
    ensures
        refreshed ==> r is None,
        !refreshed ==> r is Some && r->0@ == "hmr/change"@,
{
    if refreshed {
        None
    } else {
        Some("hmr/change".to_owned())
    }
}

/// Checks a config.
pub fn validate_config(config: &HmrConfig) -> (r: Result<(), String>)
    ensures
        r is Ok <==> config.debounce != 0,
        r matches Err(message) ==> message@ == message_of("en-US"@, "debounce"@),
{
    if config.debounce == 0 {
        return Err(validate_message("en-US", "debounce"));
    }
    Ok(())
}

/// The message about a wrong field of a config.
pub open spec fn message_of(locale: Seq<char>, field: Seq<char>) -> Seq<char> {
    if locale == "zh-CN"@ {
        if field == "debounce"@ {
            "hmr.config.debounce: 必须为正整数"@
        } else if field == "root"@ {
            "hmr.config.root: 不能为空数组"@
        } else {
            "hmr.config."@ + field + ": 配置无效"@
        }
    } else if locale == "en-US"@ && field == "debounce"@ {
        "hmr.config.debounce: must be a positive integer"@
    } else if locale == "en-US"@ && field == "root"@ {
        "hmr.config.root: must be a non-empty array"@
    } else {
        "hmr.config."@ + field + ": invalid value"@
    }
}

/// The message about a wrong field of a config, in a language.
pub fn validate_message(locale: &str, field: &str) -> (r: String)
    ensures
        r@ == message_of(locale@, field@),
{
    let debounce = same_text(field, "debounce");
    let root = same_text(field, "root");
    if same_text(locale, "zh-CN") {
        if debounce {
            "hmr.config.debounce: 必须为正整数".to_owned()
        } else if root {
            "hmr.config.root: 不能为空数组".to_owned()
        } else {
            concat3("hmr.config.", field, ": 配置无效")
        }
    } else {
        let english = same_text(locale, "en-US");
        if english && debounce {
            "hmr.config.debounce: must be a positive integer".to_owned()
        } else if english && root {
            "hmr.config.root: must be a non-empty array".to_owned()
        } else {
            concat3("hmr.config.", field, ": invalid value")
        }
    }
}

} // verus!
