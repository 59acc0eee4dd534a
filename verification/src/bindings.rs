//! What holds of exported plugins: how they are loaded, what they are told, and which of them a
//! change of libraries reaches.

use crate::bridge::{
    argument_of, arguments_of, context_of, data_of, entered, event_args, event_text, handle_calls,
    innermost, is_c_text, json_of, left, or_empty_list, or_null, scratched, HostStep,
    PluginHandle, SessionView, StoreValue,
};
use crate::dict::{lookup, lookup_after_assign};
use crate::graph::{
    declines, deps_of, is_artifact, with_artifact, ArtifactView, Change, GraphView,
};
use crate::random::{candidate, hex_digits, next_random, state_after};
use crate::so::{
    is_required, loaded, loading_after, names_library, symbol_of, LoadErrorView, LoadStep,
};
use crate::text::{decimal_text, digit, has_suffix};
use crate::value::YamlView;
use crate::yaml::{json_notation, json_parsed};
use vstd::prelude::*;

verus! {

/// An artifact that is added is there under its name, with its dependencies, and every other stays.
pub proof fn artifacts_are_added_by_name(
    graph: GraphView,
    artifact: ArtifactView,
    name: Seq<char>,
)
    ensures
        ({
            let after = with_artifact(graph, artifact).artifacts;
            &&& is_artifact(after, artifact.name)
            &&& deps_of(after, artifact.name) == artifact.deps
            &&& name != artifact.name ==> (is_artifact(after, name) <==> is_artifact(
                graph.artifacts,
                name,
            )) && deps_of(after, name) == deps_of(graph.artifacts, name)
        }),
        !is_artifact(graph.artifacts, name) ==> deps_of(graph.artifacts, name).len() == 0,
        lookup(graph.artifacts, name) is Some ==> is_artifact(graph.artifacts, name) && deps_of(
            graph.artifacts,
            name,
        ) == lookup(graph.artifacts, name)->0.deps,
{
    lookup_after_assign(graph.artifacts, artifact.name, artifact, name);
}

/// What is accepted is the least that holds the changed libraries and, with a library, those that
/// depend on it, where neither is external: every set that holds as much holds what is accepted.
pub proof fn acceptance_is_the_least(change: Change, set: Set<Seq<char>>, name: Seq<char>)
    requires
        forall|n: Seq<char>| #[trigger] change.stashed.contains(n) ==> set.contains(n),
        forall|n: Seq<char>, i: int|
            {
                &&& !change.stashed.contains(n)
                &&& !change.externals.contains(n)
                &&& 0 <= i < deps_of(change.graph, n).len()
                &&& !change.externals.contains(#[trigger] deps_of(change.graph, n)[i])
                &&& set.contains(deps_of(change.graph, n)[i])
            } ==> set.contains(n),
    ensures
        change.stashed.contains(name) ==> change.is_accepted(name),
        change.is_accepted(name) ==> set.contains(name),
        change.externals.contains(name) && !change.stashed.contains(name) ==> !change.is_accepted(
            name,
        ),
{
    if change.is_open(name) && change.reached(name) {
        let steps = choose|steps: nat| change.reached_within(name, steps);
        lemma_reached_in(change, set, name, steps);
    }
}

proof fn lemma_reached_in(change: Change, set: Set<Seq<char>>, name: Seq<char>, steps: nat)
    requires
        forall|n: Seq<char>| #[trigger] change.stashed.contains(n) ==> set.contains(n),
        forall|n: Seq<char>, i: int|
            {
                &&& !change.stashed.contains(n)
                &&& !change.externals.contains(n)
                &&& 0 <= i < deps_of(change.graph, n).len()
                &&& !change.externals.contains(#[trigger] deps_of(change.graph, n)[i])
                &&& set.contains(deps_of(change.graph, n)[i])
            } ==> set.contains(n),
        change.is_open(name),
        change.reached_within(name, steps),
    ensures
        set.contains(name),
    decreases steps,
{
    let i = choose|i: int|
        0 <= i < deps_of(change.graph, name).len() && !change.externals.contains(
            #[trigger] deps_of(change.graph, name)[i],
        ) && (change.stashed.contains(deps_of(change.graph, name)[i]) || (steps > 0
            && change.reached_within(deps_of(change.graph, name)[i], (steps - 1) as nat)));
    let dep = deps_of(change.graph, name)[i];
    if !change.stashed.contains(dep) {
        lemma_reached_in(change, set, dep, (steps - 1) as nat);
    }
    assert(set.contains(dep));
}

/// Of the libraries that are not external each is either accepted or declined; external ones are
/// declined.
pub proof fn artifacts_are_accepted_or_declined(
    change: Change,
    declined: Set<Seq<char>>,
    name: Seq<char>,
)
    requires
        declines(change, declined),
    ensures
        change.externals.contains(name) ==> declined.contains(name),
        is_artifact(change.graph, name) && !change.externals.contains(name) ==> (declined.contains(
            name,
        ) <==> !change.is_accepted(name)),
        declined.contains(name) && !change.externals.contains(name) ==> !change.stashed.contains(
            name,
        ) && !change.is_accepted(name),
{
}

/// A library is loaded in seven steps. The first four must succeed, the second with the fifth
/// version of the interface; the last three say what else the library exports.
pub proof fn libraries_load_in_seven_steps(path: Seq<char>, results: Seq<Result<u32, Seq<char>>>)
    requires
        results.len() == 7,
    ensures
        ({
            let fine = results[0] is Ok && results[1] == Ok::<u32, Seq<char>>(5)
                && results[2] is Ok && results[3] is Ok;
            match loaded(path, results) {
                Ok(loading) => {
                    &&& fine
                    &&& loading.step is Done
                    &&& loading.version == 5
                    &&& loading.has_meta == (results[4] is Ok)
                    &&& loading.has_validate == (results[5] is Ok)
                    &&& loading.has_apply == (results[6] is Ok)
                },
                Err(error) => {
                    &&& !fine
                    &&& results[0] matches Err(e) ==> error == (LoadErrorView::Open {
                        path,
                        error: e,
                    })
                    &&& results[0] is Ok ==> (results[1] matches Err(e) ==> error == (
                    LoadErrorView::MissingSymbol {
                        path,
                        symbol: "plugin_api_version"@,
                        error: e,
                    }))
                    &&& results[0] is Ok ==> (results[1] matches Ok(found) ==> found
                        != 5 ==> error == (LoadErrorView::VersionMismatch {
                        path,
                        found,
                        expected: 5,
                    }))
                    &&& results[0] is Ok && results[1] == Ok::<u32, Seq<char>>(5)
                        ==> (results[2] matches Err(e) ==> error == (
                    LoadErrorView::MissingSymbol { path, symbol: "plugin_create"@, error: e }))
                    &&& results[0] is Ok && results[1] == Ok::<u32, Seq<char>>(5)
                        && results[2] is Ok ==> (results[3] matches Err(e) ==> error == (
                    LoadErrorView::MissingSymbol { path, symbol: "plugin_dispose"@, error: e }))
                },
            }
        }),
{
    lemma_loaded_step(path, results, 0);
    lemma_loaded_step(path, results, 1);
    lemma_loaded_step(path, results, 2);
    lemma_loaded_step(path, results, 3);
    lemma_loaded_step(path, results, 4);
    lemma_loaded_step(path, results, 5);
    lemma_loaded_step(path, results, 6);
    assert(results.take(7) =~= results);
    assert(results.take(0) =~= Seq::<Result<u32, Seq<char>>>::empty());
}

proof fn lemma_loaded_step(path: Seq<char>, results: Seq<Result<u32, Seq<char>>>, k: int)
    requires
        0 <= k < results.len(),
    ensures
        loaded(path, results.take(k + 1)) == (match loaded(path, results.take(k)) {
            Ok(loading) => loading_after(path, loading, results[k]),
            Err(error) => Err(error),
        }),
{
    assert(results.take(k + 1).drop_last() =~= results.take(k));
    assert(results.take(k + 1).last() == results[k]);
}

/// What a library exports is looked up under these names; the first three are required.
pub proof fn symbols_have_names()
    ensures
        symbol_of(LoadStep::Version) == "plugin_api_version"@,
        symbol_of(LoadStep::Create) == "plugin_create"@,
        symbol_of(LoadStep::Dispose) == "plugin_dispose"@,
        symbol_of(LoadStep::Meta) == "plugin_meta"@,
        symbol_of(LoadStep::Validate) == "plugin_validate_config"@,
        symbol_of(LoadStep::Apply) == "plugin_apply"@,
        is_required(LoadStep::Version) && is_required(LoadStep::Create) && is_required(
            LoadStep::Dispose,
        ),
        !is_required(LoadStep::Meta) && !is_required(LoadStep::Validate) && !is_required(
            LoadStep::Apply,
        ),
{
}

/// What is said of a library that cannot be loaded, whatever way its path is written.
pub proof fn load_errors_are_told(error: LoadErrorView, path: Seq<char>)
    ensures
        match error {
            LoadErrorView::Open { path: own, error: e } => error.path() == own && error.text(path)
                == "cannot open plugin "@ + path + ": "@ + e,
            LoadErrorView::MissingSymbol { path: own, symbol, error: e } => error.path() == own
                && error.text(path) == "plugin "@ + path + " is missing symbol "@ + symbol + ": "@
                + e,
            LoadErrorView::VersionMismatch { path: own, found, expected } => error.path() == own
                && error.text(path) == "plugin "@ + path + " exports ABI version "@ + decimal_text(
                found as nat,
            ) + ", expected "@ + decimal_text(expected as nat),
        },
{
}

/// Libraries are told by the ends of their names.
pub proof fn libraries_are_told_by_name(stem: Seq<char>, name: Seq<char>)
    ensures
        names_library(stem + ".so"@),
        names_library(stem + ".dylib"@),
        names_library(stem + ".dll"@),
        names_library(name) ==> has_suffix(name, ".so"@) || has_suffix(name, ".dylib"@)
            || has_suffix(name, ".dll"@),
{
    crate::wording::prefixes_and_suffixes(stem, ".so"@);
    crate::wording::prefixes_and_suffixes(stem, ".dylib"@);
    crate::wording::prefixes_and_suffixes(stem, ".dll"@);
}

/// The innermost session of a handle is the last one with this handle.
pub proof fn the_last_session_is_innermost(sessions: Seq<SessionView>, handle: PluginHandle)
    ensures
        match innermost(sessions, handle) {
            Some(i) => {
                &&& 0 <= i < sessions.len()
                &&& sessions[i].handle == handle
                &&& context_of(sessions, handle) == Some(sessions[i].context)
                &&& forall|j: int|
                    i < j < sessions.len() ==> (#[trigger] sessions[j]).handle != handle
            },
            None => {
                &&& context_of(sessions, handle) is None
                &&& forall|j: int|
                    0 <= j < sessions.len() ==> (#[trigger] sessions[j]).handle != handle
            },
        },
    decreases sessions.len(),
{
    if sessions.len() > 0 && sessions.last().handle != handle {
        let front = sessions.drop_last();
        the_last_session_is_innermost(front, handle);
        assert forall|j: int|
            0 <= j < sessions.len() && (innermost(front, handle) is Some ==> innermost(
                front,
                handle,
            )->0 < j) implies (#[trigger] sessions[j]).handle != handle by {
            if j < front.len() {
                assert(front[j] == sessions[j]);
            }
        }
    }
}

/// A session that is entered is the last one, without a text. Leaving takes the last session where
/// it is one of the handle, and else nothing.
pub proof fn sessions_are_entered_and_left(
    sessions: Seq<SessionView>,
    handle: PluginHandle,
    context: u64,
)
    ensures
        ({
            let within = entered(sessions, handle, context);
            &&& within.len() == sessions.len() + 1
            &&& within.take(sessions.len() as int) == sessions
            &&& within.last().handle == handle
            &&& within.last().context == context
            &&& within.last().scratch is None
        }),
        sessions.len() > 0 && sessions.last().handle == handle ==> left(sessions, handle)
            == sessions.take(sessions.len() - 1),
        sessions.len() == 0 || sessions.last().handle != handle ==> left(sessions, handle)
            == sessions,
{
    assert(entered(sessions, handle, context).take(sessions.len() as int) =~= sessions);
    if sessions.len() > 0 {
        assert(sessions.drop_last() =~= sessions.take(sessions.len() - 1));
    }
}

/// A text is kept in the innermost session of the handle and nowhere else; contexts stay.
pub proof fn texts_are_kept_in_the_innermost(
    sessions: Seq<SessionView>,
    handle: PluginHandle,
    text: Seq<char>,
)
    ensures
        ({
            let after = scratched(sessions, handle, text);
            &&& after.len() == sessions.len()
            &&& innermost(sessions, handle) is None ==> after == sessions
            &&& forall|i: int|
                0 <= i < sessions.len() ==> (#[trigger] after[i]).handle == sessions[i].handle
                    && after[i].context == sessions[i].context && after[i].scratch == (
                if innermost(sessions, handle) == Some(i) {
                    Some(text)
                } else {
                    sessions[i].scratch
                })
        }),
{
    the_last_session_is_innermost(sessions, handle);
}

/// Data have the notation that JSON gives them, and opaque values none. Where a text holds no JSON,
/// it stands for null.
pub proof fn values_cross_as_json(value: StoreValue, text: Seq<char>)
    ensures
        value is Opaque ==> data_of(value) is None && json_of(data_of(value)) is None,
        value matches StoreValue::Data(data) ==> json_of(data_of(value)) == json_notation(data@),
        json_parsed(text) is Some ==> or_null(json_parsed(text)) == json_parsed(text)->0,
        json_parsed(text) is None ==> or_null(json_parsed(text)) == YamlView::Null,
{
}

/// The arguments of an event are listed one by one: each as its notation is read back, null where
/// it has none.
pub proof fn arguments_are_listed(args: Seq<StoreValue>)
    ensures
        arguments_of(args) is Sequence,
        arguments_of(args)->Sequence_0.len() == args.len(),
        forall|i: int|
            0 <= i < args.len() ==> #[trigger] arguments_of(args)->Sequence_0[i] == argument_of(
                data_of(args[i]),
            ),
        forall|i: int|
            0 <= i < args.len() ==> match json_of(data_of(#[trigger] args[i])) {
                Some(text) => argument_of(data_of(args[i])) == (if json_parsed(text) is Some {
                    json_parsed(text)->0
                } else {
                    YamlView::Null
                }),
                None => argument_of(data_of(args[i])) == YamlView::Null,
            },
{
}

/// A live plugin is told the arguments of an event in JSON, or the empty list where they have no
/// notation that it can read; one that is gone is told nothing.
pub proof fn live_plugins_are_told(
    live: Set<PluginHandle>,
    handle: PluginHandle,
    args: Seq<StoreValue>,
)
    ensures
        ({
            let notation = json_notation(arguments_of(args));
            let told = event_text(live, handle, args);
            &&& told is Some <==> live.contains(handle)
            &&& live.contains(handle) && notation is Some && !notation->0.contains('\0') ==> told
                == notation
            &&& live.contains(handle) && (notation is None || notation->0.contains('\0')) ==> told
                == Some(seq!['[', ']'])
        }),
        forall|text: Seq<char>| #[trigger] is_c_text(text) <==> !text.contains('\0'),
        or_empty_list(None) == seq!['[', ']'],
        forall|text: Seq<char>| #[trigger] or_empty_list(Some(text)) == text,
{
    reveal_strlit("[]");
    assert("[]"@ =~= seq!['[', ']']);
    assert(!seq!['[', ']'].contains('\0'));
}

/// An event whose payload is a list has its items as arguments; any other payload is the one
/// argument.
pub proof fn payloads_become_arguments(value: YamlView)
    ensures
        value is Sequence ==> event_args(value) == value->Sequence_0,
        !(value is Sequence) ==> event_args(value) == seq![value],
{
}

/// The calls about handles among the steps are those steps, in order.
pub proof fn handle_calls_are_steps(steps: Seq<HostStep>)
    ensures
        handle_calls(steps) == steps.filter(|step: HostStep| step is Handle).map_values(
            |step: HostStep| step->Handle_0,
        ),
    decreases steps.len(),
{
    reveal(Seq::filter);
    let is_call = |step: HostStep| step is Handle;
    let call = |step: HostStep| step->Handle_0;
    if steps.len() > 0 {
        handle_calls_are_steps(steps.drop_last());
        let rest = steps.drop_last().filter(is_call);
        assert(rest.push(steps.last()).map_values(call) =~= rest.map_values(call).push(
            call(steps.last()),
        ));
    }
    assert(handle_calls(steps) =~= steps.filter(is_call).map_values(call));
}

/// The next number is made by three shifts: each time the shifted number is laid over it.
pub proof fn numbers_are_shifted_thrice(x: u64, a: u64, b: u64)
    requires
        a == x ^ (x << 13),
        b == a ^ (a >> 7),
    ensures
        next_random(x) == b ^ (b << 17),
{
}

/// Digits are drawn one after another: those of a longer text are those of a shorter one and then
/// those that follow from the state in between. The first one is the last four bits of the next
/// number, which is made from the seed where there is no state yet.
pub proof fn digits_are_drawn_in_order(state: u64, seed: u64, n: nat, m: nat)
    ensures
        hex_digits(state, seed, n + m) == hex_digits(state, seed, n) + hex_digits(
            state_after(state, seed, n),
            seed,
            m,
        ),
        state_after(state, seed, n + m) == state_after(state_after(state, seed, n), seed, m),
        state_after(state, seed, 0) == state,
        state_after(state, seed, 1) == next_random(
            if state == 0 {
                seed
            } else {
                state
            },
        ),
        hex_digits(state, seed, 1) == seq![digit(state_after(state, seed, 1) as int % 16)],
        hex_digits(state, seed, n).len() == n,
{
    reveal_with_fuel(state_after, 2);
    lemma_states_add(state, seed, n, m);
    let all = hex_digits(state, seed, n + m);
    let first = hex_digits(state, seed, n);
    let then = hex_digits(state_after(state, seed, n), seed, m);
    assert forall|i: int| 0 <= i < n + m implies #[trigger] all[i] == (first + then)[i] by {
        if i >= n {
            lemma_states_add(state, seed, n, (i - n + 1) as nat);
            assert((n + (i - n + 1) as nat) as nat == (i + 1) as nat);
        }
    }
    assert(all =~= first + then);
    assert(hex_digits(state, seed, 1) =~= seq![digit(state_after(state, seed, 1) as int % 16)]);
}

proof fn lemma_states_add(state: u64, seed: u64, n: nat, m: nat)
    ensures
        state_after(state_after(state, seed, n), seed, m) == state_after(state, seed, n + m),
    decreases m,
{
    if m > 0 {
        lemma_states_add(state, seed, n, (m - 1) as nat);
    }
}

/// Ids have eight digits each, drawn one id after another.
pub proof fn ids_are_drawn_in_order(state: u64, seed: u64, k: nat)
    ensures
        candidate(state, seed, k).len() == 8,
        candidate(state, seed, 0) == hex_digits(state, seed, 8),
        candidate(state, seed, k + 1) == candidate(state_after(state, seed, 8), seed, k),
{
    lemma_states_add(state, seed, 8, 8 * k);
    assert(8 + 8 * k == 8 * (k + 1));
}

} // verus!
