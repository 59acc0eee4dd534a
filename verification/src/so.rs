//! Plugin libraries: the steps of loading one, its metadata, and what can go wrong.

use crate::bridge::{register_handle, unregister_handle, LiveHandles, PluginHandle};
use crate::options::text_option;
use crate::text::{concat, concat3, decimal, decimal_text, ends_with, has_suffix, texts};
use vstd::prelude::*;

verus! {

/// The version of the plugin interface.
pub const PLUGIN_API_VERSION: u32 = 5;

/// The debug notation of a path that is given as text: quoted, with escapes.
pub uninterp spec fn quoted(text: Seq<char>) -> Seq<char>;

/// `<std::path::Path as Debug>::fmt`, on the path of a text: the notation depends on the text
/// alone.
#[verifier::external_body]
fn quote(text: &str) -> (r: String)
    ensures
        r@ == quoted(text@),
{
    format!("{:?}", std::path::Path::new(text))
}

/// The metadata that a plugin advertises.
pub struct PluginMeta {
    /// Stable plugin name.
    pub name: String,
    /// Plugin version.
    pub version: Option<String>,
    /// Declared inject dependencies.
    pub inject: Vec<String>,
    /// Declared provided services.
    pub provide: Vec<String>,
    /// What the plugin links against.
    pub deps: Vec<String>,
}

/// What plugin metadata says.
pub struct MetaView {
    pub name: Seq<char>,
    pub version: Option<Seq<char>>,
    pub inject: Seq<Seq<char>>,
    pub provide: Seq<Seq<char>>,
    pub deps: Seq<Seq<char>>,
}

impl View for PluginMeta {
    type V = MetaView;

    open spec fn view(&self) -> MetaView {
        MetaView {
            name: self.name@,
            version: text_option(self.version),
            inject: texts(self.inject@),
            provide: texts(self.provide@),
            deps: texts(self.deps@),
        }
    }
}

/// Why a plugin library could not be loaded.
pub enum LoadError {
    /// The library could not be opened.
    Open { path: String, error: String },
    /// A required symbol is missing.
    MissingSymbol { path: String, symbol: String, error: String },
    /// The plugin was built for another version of the interface.
    VersionMismatch { path: String, found: u32, expected: u32 },
}

/// What a load error says.
pub enum LoadErrorView {
    Open { path: Seq<char>, error: Seq<char> },
    MissingSymbol { path: Seq<char>, symbol: Seq<char>, error: Seq<char> },
    VersionMismatch { path: Seq<char>, found: u32, expected: u32 },
}

impl View for LoadError {
    type V = LoadErrorView;

    open spec fn view(&self) -> LoadErrorView {
        match self {
            LoadError::Open { path, error } => LoadErrorView::Open { path: path@, error: error@ },
            LoadError::MissingSymbol { path, symbol, error } => LoadErrorView::MissingSymbol {
                path: path@,
                symbol: symbol@,
                error: error@,
            },
            LoadError::VersionMismatch { path, found, expected } => LoadErrorView::VersionMismatch {
                path: path@,
                found: *found,
                expected: *expected,
            },
        }
    }
}

impl LoadErrorView {
    /// The path of the library.
    pub open spec fn path(self) -> Seq<char> {
        match self {
            LoadErrorView::Open { path, .. } => path,
            LoadErrorView::MissingSymbol { path, .. } => path,
            LoadErrorView::VersionMismatch { path, .. } => path,
        }
    }

    /// The error as a line of text, where `path` is the notation of the path.
    pub open spec fn text(self, path: Seq<char>) -> Seq<char> {
        match self {
            LoadErrorView::Open { error, .. } => "cannot open plugin "@ + path + ": "@ + error,
            LoadErrorView::MissingSymbol { symbol, error, .. } => "plugin "@ + path
                + " is missing symbol "@ + symbol + ": "@ + error,
            LoadErrorView::VersionMismatch { found, expected, .. } => "plugin "@ + path
                + " exports ABI version "@ + decimal_text(found as nat) + ", expected "@
                + decimal_text(expected as nat),
        }
    }
}

impl LoadError {
    /// The path of the library.
    fn path(&self) -> (r: &String)
        ensures
            r@ == self@.path(),
    {
        match self {
            LoadError::Open { path, .. } => path,
            LoadError::MissingSymbol { path, .. } => path,
            LoadError::VersionMismatch { path, .. } => path,
        }
    }

    /// The error as a line of text, where `path` is the notation of the path.
    pub fn text_with(&self, path: &str) -> (r: String)
        ensures
            r@ == self@.text(path@),
    {
        match self {
            LoadError::Open { error, .. } => {
                let mut out = concat3("cannot open plugin ", path, ": ");
                out.append(error.as_str());
                out
            },
            LoadError::MissingSymbol { symbol, error, .. } => {
                let mut out = concat3("plugin ", path, " is missing symbol ");
                out.append(symbol.as_str());
                out.append(": ");
                out.append(error.as_str());
                out
            },
            LoadError::VersionMismatch { found, expected, .. } => {
                let mut out = concat3("plugin ", path, " exports ABI version ");
                out.append(decimal(*found as u64).as_str());
                out.append(", expected ");
                out.append(decimal(*expected as u64).as_str());
                out
            },
        }
    }

    /// The error as a line of text.
    pub fn to_text(&self) -> (r: String)
        ensures
            r@ == self@.text(quoted(self@.path())),
    {
        let path = quote(self.path().as_str());
        self.text_with(path.as_str())
    }
}

/// The steps of loading a plugin library, in order.
#[derive(PartialEq, Eq, Structural, Clone, Copy)]
pub enum LoadStep {
    /// The library is opened.
    Open,
    /// `plugin_api_version` is looked up and called.
    Version,
    /// `plugin_create` is looked up.
    Create,
    /// `plugin_dispose` is looked up.
    Dispose,
    /// `plugin_meta` is looked up.
    Meta,
    /// `plugin_validate_config` is looked up.
    Validate,
    /// `plugin_apply` is looked up.
    Apply,
    /// The library is loaded.
    Done,
}

/// How far the loading of a library is, and what it exports.
#[derive(PartialEq, Eq, Structural, Clone, Copy)]
pub struct Loading {
    pub step: LoadStep,
    pub version: u32,
    pub has_meta: bool,
    pub has_validate: bool,
    pub has_apply: bool,
}

/// What a step came to: a number, which is the version where the step is that, or the text of an
/// error.
pub type StepResult = Result<u32, String>;

/// The step after this one.
pub open spec fn step_after(step: LoadStep) -> LoadStep {
    match step {
        LoadStep::Open => LoadStep::Version,
        LoadStep::Version => LoadStep::Create,
        LoadStep::Create => LoadStep::Dispose,
        LoadStep::Dispose => LoadStep::Meta,
        LoadStep::Meta => LoadStep::Validate,
        LoadStep::Validate => LoadStep::Apply,
        LoadStep::Apply => LoadStep::Done,
        LoadStep::Done => LoadStep::Done,
    }
}

/// The symbol that a step looks up.
pub open spec fn symbol_of(step: LoadStep) -> Seq<char> {
    match step {
        LoadStep::Version => "plugin_api_version"@,
        LoadStep::Create => "plugin_create"@,
        LoadStep::Dispose => "plugin_dispose"@,
        LoadStep::Meta => "plugin_meta"@,
        LoadStep::Validate => "plugin_validate_config"@,
        LoadStep::Apply => "plugin_apply"@,
        _ => Seq::empty(),
    }
}

/// Whether a step must succeed.
pub open spec fn is_required(step: LoadStep) -> bool {
    step is Open || step is Version || step is Create || step is Dispose
}

/// What the loading comes to after a step.
pub open spec fn loading_after(
    path: Seq<char>,
    loading: Loading,
    result: Result<u32, Seq<char>>,
) -> Result<Loading, LoadErrorView> {
    let step = loading.step;
    match result {
        Err(error) => if step is Open {
            Err(LoadErrorView::Open { path, error })
        } else if is_required(step) {
            Err(LoadErrorView::MissingSymbol { path, symbol: symbol_of(step), error })
        } else {
            Ok(Loading { step: step_after(step), ..loading })
        },
        Ok(found) => if step is Version {
            if found != PLUGIN_API_VERSION {
                Err(
                    LoadErrorView::VersionMismatch {
                        path,
                        found,
                        expected: PLUGIN_API_VERSION,
                    },
                )
            } else {
                Ok(Loading { step: LoadStep::Create, version: found, ..loading })
            }
        } else {
            Ok(
                Loading {
                    step: step_after(step),
                    has_meta: loading.has_meta || step is Meta,
                    has_validate: loading.has_validate || step is Validate,
                    has_apply: loading.has_apply || step is Apply,
                    ..loading
                },
            )
        },
    }
}

/// The view of a step's result.
pub open spec fn step_view(result: StepResult) -> Result<u32, Seq<char>> {
    match result {
        Ok(n) => Ok(n),
        Err(message) => Err(message@),
    }
}

/// The symbol that a step looks up.
pub fn symbol_name(step: LoadStep) -> (r: String)
    ensures
        r@ == symbol_of(step),
{
    match step {
        LoadStep::Version => "plugin_api_version".to_owned(),
        LoadStep::Create => "plugin_create".to_owned(),
        LoadStep::Dispose => "plugin_dispose".to_owned(),
        LoadStep::Meta => "plugin_meta".to_owned(),
        LoadStep::Validate => "plugin_validate_config".to_owned(),
        LoadStep::Apply => "plugin_apply".to_owned(),
        _ => String::new(),
    }
}

impl Loading {
    /// Nothing was done yet.
    pub fn start() -> (r: Loading)
        ensures
            r == (Loading {
                step: LoadStep::Open,
                version: 0,
                has_meta: false,
                has_validate: false,
                has_apply: false,
            }),
    {
        Loading {
            step: LoadStep::Open,
            version: 0,
            has_meta: false,
            has_validate: false,
            has_apply: false,
        }
    }

    /// Goes on after a step, or fails.
    pub fn advance(self, path: &str, result: StepResult) -> (r: Result<Loading, LoadError>)
        ensures
            match loading_after(path@, self, step_view(result)) {
                Ok(next) => r == Ok::<Loading, LoadError>(next),
                Err(error) => r is Err && r->Err_0@ == error,
            },
    {
        match result {
            Err(error) => match self.step {
                LoadStep::Open => Err(LoadError::Open { path: path.to_owned(), error }),
                LoadStep::Version | LoadStep::Create | LoadStep::Dispose => Err(
                    LoadError::MissingSymbol {
                        path: path.to_owned(),
                        symbol: symbol_name(self.step),
                        error,
                    },
                ),
                LoadStep::Meta => Ok(Loading { step: LoadStep::Validate, ..self }),
                LoadStep::Validate => Ok(Loading { step: LoadStep::Apply, ..self }),
                LoadStep::Apply => Ok(Loading { step: LoadStep::Done, ..self }),
                LoadStep::Done => Ok(self),
            },
            Ok(found) => match self.step {
                LoadStep::Open => Ok(Loading { step: LoadStep::Version, ..self }),
                LoadStep::Version => {
                    if found != PLUGIN_API_VERSION {
                        Err(
                            LoadError::VersionMismatch {
                                path: path.to_owned(),
                                found,
                                expected: PLUGIN_API_VERSION,
                            },
                        )
                    } else {
                        Ok(Loading { step: LoadStep::Create, version: found, ..self })
                    }
                },
                LoadStep::Create => Ok(Loading { step: LoadStep::Dispose, ..self }),
                LoadStep::Dispose => Ok(Loading { step: LoadStep::Meta, ..self }),
                LoadStep::Meta => Ok(Loading { step: LoadStep::Validate, has_meta: true, ..self }),
                LoadStep::Validate => Ok(
                    Loading { step: LoadStep::Apply, has_validate: true, ..self },
                ),
                LoadStep::Apply => Ok(Loading { step: LoadStep::Done, has_apply: true, ..self }),
                LoadStep::Done => Ok(self),
            },
        }
    }
}

/// The loading after the steps whose results are listed.
pub open spec fn loaded(path: Seq<char>, results: Seq<Result<u32, Seq<char>>>) -> Result<
    Loading,
    LoadErrorView,
>
    decreases results.len(),
{
    if results.len() == 0 {
        Ok(
            Loading {
                step: LoadStep::Open,
                version: 0,
                has_meta: false,
                has_validate: false,
                has_apply: false,
            },
        )
    } else {
        match loaded(path, results.drop_last()) {
            Ok(loading) => loading_after(path, loading, results.last()),
            Err(error) => Err(error),
        }
    }
}

/// A library that is past the version check was built for this version of the interface.
pub proof fn loaded_library_has_the_version(path: Seq<char>, results: Seq<Result<u32, Seq<char>>>)
    ensures
        loaded(path, results) matches Ok(loading) ==> loading.step is Open || loading.step
            is Version || loading.version == PLUGIN_API_VERSION,
    decreases results.len(),
{
    if results.len() > 0 {
        loaded_library_has_the_version(path, results.drop_last());
    }
}

/// A library without a required symbol is not loaded: where a required step fails, so does the
/// loading, whatever follows.
pub proof fn required_steps_must_succeed(
    path: Seq<char>,
    results: Seq<Result<u32, Seq<char>>>,
    i: int,
)
    requires
        0 <= i < results.len(),
        i < 4,
        results[i] is Err,
    ensures
        loaded(path, results) is Err,
    decreases results.len(),
{
    lemma_step_number(path, results.take(i));
    if i == results.len() - 1 {
        assert(results.drop_last() =~= results.take(i));
    } else {
        required_steps_must_succeed(path, results.drop_last(), i);
    }
}

/// The number of a step.
pub open spec fn step_number(step: LoadStep) -> int {
    match step {
        LoadStep::Open => 0,
        LoadStep::Version => 1,
        LoadStep::Create => 2,
        LoadStep::Dispose => 3,
        LoadStep::Meta => 4,
        LoadStep::Validate => 5,
        LoadStep::Apply => 6,
        LoadStep::Done => 7,
    }
}

proof fn lemma_step_number(path: Seq<char>, results: Seq<Result<u32, Seq<char>>>)
    ensures
        loaded(path, results) matches Ok(loading) ==> step_number(loading.step) == (if results.len()
            < 7 {
            results.len() as int
        } else {
            7
        }),
    decreases results.len(),
{
    if results.len() > 0 {
        lemma_step_number(path, results.drop_last());
    }
}

/// A loaded plugin library.
pub struct SoPlugin {
    path: String,
    loading: Loading,
    handle: Option<PluginHandle>,
}

/// What a loaded plugin library is.
pub struct SoView {
    pub path: Seq<char>,
    pub loading: Loading,
    pub handle: Option<PluginHandle>,
}

impl View for SoPlugin {
    type V = SoView;

    closed spec fn view(&self) -> SoView {
        SoView { path: self.path@, loading: self.loading, handle: self.handle }
    }
}

/// The views of a list of step results.
pub open spec fn step_views(results: Seq<StepResult>) -> Seq<Result<u32, Seq<char>>> {
    Seq::new(results.len(), |i: int| step_view(results[i]))
}

impl SoPlugin {
    /// A plugin library, from the results of the steps of loading it. The steps after one that
    /// fails need not be tried.
    pub fn load(path: &str, results: Vec<StepResult>) -> (r: Result<SoPlugin, LoadError>)
        requires
            results@.len() >= 7 || loaded(path@, step_views(results@)) is Err,
        ensures
            match loaded(path@, step_views(results@)) {
                Ok(loading) => r is Ok && loading.step is Done && r->Ok_0@ == (SoView {
                    path: path@,
                    loading,
                    handle: None,
                }),
                Err(error) => r is Err && r->Err_0@ == error,
            },
    {
        let ghost all = step_views(results@);
        let mut rest = results;
        let mut loading = Loading::start();
        let ghost mut done: int = 0;
        proof {
            assert(all.take(0) =~= Seq::<Result<u32, Seq<char>>>::empty());
        }
        while rest.len() > 0
            invariant
                0 <= done <= all.len(),
                all == step_views(results@),
                all.len() == done + rest@.len(),
                forall|j: int|
                    0 <= j < rest@.len() ==> step_view(#[trigger] rest@[j]) == all[done + j],
                loaded(path@, all.take(done)) == Ok::<Loading, LoadErrorView>(loading),
            decreases rest@.len(),
        {
            let ghost before = rest@;
            let result = rest.remove(0);
            assert(step_view(before[0]) == all[done]);
            assert(all.take(done + 1).drop_last() =~= all.take(done));
            match loading.advance(path, result) {
                Ok(next) => {
                    loading = next;
                },
                Err(error) => {
                    proof {
                        lemma_failed_stays(path@, all, done + 1);
                    }
                    return Err(error);
                },
            }
            assert forall|j: int| 0 <= j < rest@.len() implies step_view(#[trigger] rest@[j])
                == all[done + 1 + j] by {
                assert(rest@[j] == before[j + 1]);
            }
            proof {
                done = done + 1;
            }
        }
        proof {
            assert(all.take(done) =~= all);
            lemma_step_number(path@, all);
        }
        Ok(SoPlugin { path: path.to_owned(), loading, handle: None })
    }

    /// The version of the interface that the library was built for.
    pub fn version(&self) -> (r: u32)
        ensures
            r == self@.loading.version,
    {
        self.loading.version
    }

    /// The path of the library.
    pub fn path(&self) -> (r: &String)
        ensures
            r@ == self@.path,
    {
        &self.path
    }

    /// Whether the library exports a config validator.
    pub fn validator(&self) -> (r: bool)
        ensures
            r == self@.loading.has_validate,
    {
        self.loading.has_validate
    }

    /// Whether the library exports an apply entry.
    pub fn apply_fn(&self) -> (r: bool)
        ensures
            r == self@.loading.has_apply,
    {
        self.loading.has_apply
    }

    /// The plugin instance, if it was created.
    pub fn handle_ptr(&self) -> (r: Option<PluginHandle>)
        ensures
            r == self@.handle,
    {
        self.handle
    }

    /// Notes what the library's create entry returned: an instance, which is live now, or none.
    pub fn create(&mut self, handle: Option<PluginHandle>, live: &mut LiveHandles)
        ensures
            final(self)@ == (SoView { handle, ..old(self)@ }),
            final(live)@ == (match handle {
                Some(h) => old(live)@.insert(h),
                None => old(live)@,
            }),
    {
        self.handle = handle;
        if let Some(handle) = handle {
            register_handle(live, handle);
        }
    }

    /// Gives up the plugin instance, which is live no more; it comes back, to be disposed.
    pub fn dispose(&mut self, live: &mut LiveHandles) -> (r: Option<PluginHandle>)
        ensures
            r == old(self)@.handle,
            final(self)@ == (SoView { handle: None, ..old(self)@ }),
            final(live)@ == (match old(self)@.handle {
                Some(h) => old(live)@.remove(h),
                None => old(live)@,
            }),
    {
        let handle = self.handle;
        self.handle = None;
        if let Some(handle) = handle {
            unregister_handle(live, handle);
        }
        handle
    }
}

proof fn lemma_failed_stays(path: Seq<char>, results: Seq<Result<u32, Seq<char>>>, n: int)
    requires
        0 <= n <= results.len(),
        loaded(path, results.take(n)) is Err,
    ensures
        loaded(path, results) == loaded(path, results.take(n)),
    decreases results.len(),
{
    if n < results.len() {
        assert(results.drop_last().take(n) =~= results.take(n));
        lemma_failed_stays(path, results.drop_last(), n);
    } else {
        assert(results.take(n) =~= results);
    }
}

/// The metadata of a plugin, from whether its export returned a text and what that was read as.
pub fn metadata(exported: Option<Result<PluginMeta, String>>) -> (r: Result<PluginMeta, String>)
    ensures
        match exported {
            None => r is Err && r->Err_0@ == "plugin_meta returned null"@,
            Some(Ok(meta)) => r == Ok::<PluginMeta, String>(meta),
            Some(Err(error)) => r is Err && r->Err_0@ == "invalid plugin metadata: "@ + error@,
        },
{
    match exported {
        None => Err("plugin_meta returned null".to_owned()),
        Some(Ok(meta)) => Ok(meta),
        Some(Err(error)) => Err(concat("invalid plugin metadata: ", error.as_str())),
    }
}

/// Whether a name looks like that of a plugin library.
pub open spec fn names_library(name: Seq<char>) -> bool {
    has_suffix(name, ".so"@) || has_suffix(name, ".dylib"@) || has_suffix(name, ".dll"@)
}

/// Whether a name looks like that of a plugin library.
pub fn is_plugin_path(name: &str) -> (r: bool)
    ensures
        r == names_library(name@),
{
    ends_with(name, ".so") || ends_with(name, ".dylib") || ends_with(name, ".dll")
}

} // verus!
