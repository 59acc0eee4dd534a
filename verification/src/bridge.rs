//! The bridge between plugin libraries and the host: live plugin instances, the sessions of calls
//! into them, and the values that cross the border as JSON.

use crate::options::text_option;
use crate::value::{lemma_value_view, option_view, value_views, Yaml, YamlView};
use crate::yaml::{json_notation, json_parsed, parse_json, to_json_text};
use vstd::prelude::*;

verus! {

/// A plugin instance, named by its address. The instance itself is the plugin's own.
#[derive(PartialEq, Eq, Structural, Clone, Copy)]
pub struct PluginHandle {
    pub address: usize,
}

/// The plugin instances that were created and not yet disposed.
pub struct LiveHandles {
    handles: Vec<PluginHandle>,
}

impl View for LiveHandles {
    type V = Set<PluginHandle>;

    closed spec fn view(&self) -> Set<PluginHandle> {
        self.handles@.to_set()
    }
}

impl LiveHandles {
    #[verifier::type_invariant]
    spec fn well_formed(&self) -> bool {
        self.handles@.no_duplicates()
    }

    /// No instance is live.
    pub fn new() -> (r: LiveHandles)
        ensures
            r@ == Set::<PluginHandle>::empty(),
    {
        let r = LiveHandles { handles: Vec::new() };
        assert(r@ =~= Set::<PluginHandle>::empty());
        r
    }

    /// The place of `handle`, if it is live.
    fn find(&self, handle: PluginHandle) -> (r: Option<usize>)
        ensures
            match r {
                Some(i) => i < self.handles@.len() && self.handles@[i as int] == handle,
                None => !self@.contains(handle),
            },
    {
        let mut i: usize = 0;
        while i < self.handles.len()
            invariant
                i <= self.handles@.len(),
                forall|j: int| 0 <= j < i ==> self.handles@[j] != handle,
            decreases self.handles@.len() - i,
        {
            if self.handles[i] == handle {
                return Some(i);
            }
            i += 1;
        }
        None
    }
}

/// Marks a plugin instance as live.
pub fn register_handle(live: &mut LiveHandles, handle: PluginHandle)
    ensures
        final(live)@ == old(live)@.insert(handle),
        final(live)@ == live_with(old(live)@, handle, true),
{
    proof {
        use_type_invariant(&*live);
    }
    match live.find(handle) {
        Some(i) => {
            assert(live@.contains(live.handles@[i as int]));
            assert(live@.insert(handle) =~= live@);
        },
        None => {
            let ghost before = live.handles@;
            let mut handles: Vec<PluginHandle> = Vec::new();
            std::mem::swap(&mut handles, &mut live.handles);
            handles.push(handle);
            proof {
                crate::names::lemma_push_to_set(before, handle);
                assert(handles@.no_duplicates());
            }
            live.handles = handles;
        },
    }
}

/// Marks a plugin instance as disposed.
pub fn unregister_handle(live: &mut LiveHandles, handle: PluginHandle)
    ensures
        final(live)@ == old(live)@.remove(handle),
        final(live)@ == live_with(old(live)@, handle, false),
{
    proof {
        use_type_invariant(&*live);
    }
    match live.find(handle) {
        Some(i) => {
            let ghost before = live.handles@;
            let mut handles: Vec<PluginHandle> = Vec::new();
            std::mem::swap(&mut handles, &mut live.handles);
            let taken = handles.remove(i);
            proof {
                lemma_remove_to_set(before, i as int);
            }
            live.handles = handles;
        },
        None => {
            assert(live@.remove(handle) =~= live@);
        },
    }
}

/// Whether a plugin instance is live.
pub fn is_handle_live(live: &LiveHandles, handle: PluginHandle) -> (r: bool)
    ensures
        r == live@.contains(handle),
{
    match live.find(handle) {
        Some(i) => {
            assert(live@.contains(live.handles@[i as int]));
            true
        },
        None => false,
    }
}

/// A call that marks a plugin instance as live, or as disposed, on one of the threads.
pub struct HandleCall {
    pub thread: int,
    pub handle: PluginHandle,
    pub registers: bool,
}

/// The live handles after a handle was registered, or unregistered.
pub open spec fn live_with(
    live: Set<PluginHandle>,
    handle: PluginHandle,
    registers: bool,
) -> Set<PluginHandle> {
    if registers {
        live.insert(handle)
    } else {
        live.remove(handle)
    }
}

/// The instances that are live on a thread after the calls listed. Every thread has its own.
pub open spec fn live_after(calls: Seq<HandleCall>, thread: int) -> Set<PluginHandle>
    decreases calls.len(),
{
    if calls.len() == 0 {
        Set::empty()
    } else {
        let before = live_after(calls.drop_last(), thread);
        let call = calls.last();
        if call.thread != thread {
            before
        } else {
            live_with(before, call.handle, call.registers)
        }
    }
}

/// Whether the call at a place is the latest on its thread for its plugin instance.
pub open spec fn is_latest(calls: Seq<HandleCall>, i: int) -> bool {
    0 <= i < calls.len() && forall|j: int|
        i < j < calls.len() ==> (#[trigger] calls[j]).thread != calls[i].thread || calls[j].handle
            != calls[i].handle
}

/// A plugin instance is live on a thread exactly when the latest call for it there marked it as
/// live. Calls on other threads do not count.
pub proof fn live_when_last_registered(
    calls: Seq<HandleCall>,
    thread: int,
    handle: PluginHandle,
)
    ensures
        live_after(calls, thread).contains(handle) <==> exists|i: int|
            #[trigger] is_latest(calls, i) && calls[i].thread == thread && calls[i].handle == handle
                && calls[i].registers,
    decreases calls.len(),
{
    if calls.len() > 0 {
        let front = calls.drop_last();
        let n = calls.len() - 1;
        live_when_last_registered(front, thread, handle);
        let last = calls.last();
        if last.thread == thread && last.handle == handle {
            assert(is_latest(calls, n));
            assert forall|i: int|
                #[trigger] is_latest(calls, i) && calls[i].thread == thread && calls[i].handle
                    == handle implies i == n by {
                if i < n {
                    assert(calls[n].thread == calls[i].thread);
                }
            }
        } else {
            assert forall|i: int| calls[i].thread == thread && calls[i].handle == handle && i
                < n implies #[trigger] is_latest(calls, i) == is_latest(front, i) by {
                if is_latest(front, i) {
                    assert forall|j: int| i < j < calls.len() implies (
                    #[trigger] calls[j]).thread != calls[i].thread || calls[j].handle
                        != calls[i].handle by {
                        if j < n {
                            assert(front[j] == calls[j]);
                        }
                    }
                }
                if is_latest(calls, i) {
                    assert forall|j: int| i < j < front.len() implies (
                    #[trigger] front[j]).thread != front[i].thread || front[j].handle
                        != front[i].handle by {
                        assert(calls[j] == front[j]);
                    }
                }
            }
            if live_after(front, thread).contains(handle) {
                let i = choose|i: int|
                    #[trigger] is_latest(front, i) && front[i].thread == thread && front[i].handle
                        == handle && front[i].registers;
                assert(is_latest(calls, i));
            }
            if exists|i: int|
                #[trigger] is_latest(calls, i) && calls[i].thread == thread && calls[i].handle
                    == handle && calls[i].registers {
                let i = choose|i: int|
                    #[trigger] is_latest(calls, i) && calls[i].thread == thread && calls[i].handle
                        == handle && calls[i].registers;
                assert(i < n);
                assert(is_latest(front, i));
            }
        }
    }
}

proof fn lemma_remove_to_set(list: Seq<PluginHandle>, i: int)
    requires
        0 <= i < list.len(),
        list.no_duplicates(),
    ensures
        list.remove(i).to_set() == list.to_set().remove(list[i]),
        list.remove(i).no_duplicates(),
{
    let rest = list.remove(i);
    assert forall|x: PluginHandle| rest.to_set().contains(x) <==> list.to_set().remove(list[i]).contains(
        x,
    ) by {
        if rest.contains(x) {
            let k = choose|k: int| 0 <= k < rest.len() && rest[k] == x;
            let j = if k < i {
                k
            } else {
                k + 1
            };
            assert(list[j] == x);
            assert(j != i);
        }
        if list.contains(x) && x != list[i] {
            let k = choose|k: int| 0 <= k < list.len() && list[k] == x;
            if k < i {
                assert(rest[k] == x);
            } else {
                assert(rest[k - 1] == x);
            }
        }
    }
    assert(rest.to_set() =~= list.to_set().remove(list[i]));
    assert forall|a: int, b: int| 0 <= a < rest.len() && 0 <= b < rest.len() && a != b implies rest[a]
        != rest[b] by {
        let x = if a < i {
            a
        } else {
            a + 1
        };
        let y = if b < i {
            b
        } else {
            b + 1
        };
        assert(list[x] != list[y]);
    }
}

/// One call from the host into a plugin: the plugin instance, the context that the call belongs
/// to, and the text that was last handed out to the plugin.
pub struct Session {
    pub handle: PluginHandle,
    pub context: u64,
    pub scratch: Option<String>,
}

/// What a session is.
pub struct SessionView {
    pub handle: PluginHandle,
    pub context: u64,
    pub scratch: Option<Seq<char>>,
}

impl View for Session {
    type V = SessionView;

    open spec fn view(&self) -> SessionView {
        SessionView {
            handle: self.handle,
            context: self.context,
            scratch: text_option(self.scratch),
        }
    }
}

/// The calls under way, the innermost last.
pub struct Sessions {
    pub frames: Vec<Session>,
}

impl View for Sessions {
    type V = Seq<SessionView>;

    open spec fn view(&self) -> Seq<SessionView> {
        Seq::new(self.frames@.len(), |i: int| self.frames@[i]@)
    }
}

/// The place of the innermost session of a plugin instance, none where there is none.
pub open spec fn innermost(sessions: Seq<SessionView>, handle: PluginHandle) -> Option<int>
    decreases sessions.len(),
{
    if sessions.len() == 0 {
        None
    } else if sessions.last().handle == handle {
        Some(sessions.len() - 1)
    } else {
        innermost(sessions.drop_last(), handle)
    }
}

/// The context of the innermost session of a plugin instance.
pub open spec fn context_of(sessions: Seq<SessionView>, handle: PluginHandle) -> Option<u64> {
    match innermost(sessions, handle) {
        Some(i) => Some(sessions[i].context),
        None => None,
    }
}

/// The sessions after a call into a plugin began.
pub open spec fn entered(sessions: Seq<SessionView>, handle: PluginHandle, context: u64) -> Seq<
    SessionView,
> {
    sessions.push(SessionView { handle, context, scratch: None })
}

/// The sessions after a call into a plugin ended.
pub open spec fn left(sessions: Seq<SessionView>, handle: PluginHandle) -> Seq<SessionView> {
    if sessions.len() > 0 && sessions.last().handle == handle {
        sessions.drop_last()
    } else {
        sessions
    }
}

/// The sessions after `text` was put into the scratch of the innermost session of a plugin
/// instance.
pub open spec fn scratched(sessions: Seq<SessionView>, handle: PluginHandle, text: Seq<char>) -> Seq<
    SessionView,
> {
    match innermost(sessions, handle) {
        Some(i) => sessions.update(i, SessionView { scratch: Some(text), ..sessions[i] }),
        None => sessions,
    }
}

/// Whether a text can be handed out as a C string.
pub open spec fn is_c_text(text: Seq<char>) -> bool {
    !text.contains('\0')
}

/// A call that begins and ends leaves the sessions as they were.
pub proof fn calls_are_balanced(sessions: Seq<SessionView>, handle: PluginHandle, context: u64)
    ensures
        left(entered(sessions, handle, context), handle) == sessions,
        context_of(entered(sessions, handle, context), handle) == Some(context),
{
    assert(entered(sessions, handle, context).drop_last() =~= sessions);
}

/// A call into one plugin instance does not change which context another one sees.
pub proof fn calls_do_not_leak(
    sessions: Seq<SessionView>,
    handle: PluginHandle,
    context: u64,
    other: PluginHandle,
)
    requires
        other != handle,
    ensures
        context_of(entered(sessions, handle, context), other) == context_of(sessions, other),
{
    assert(entered(sessions, handle, context).drop_last() =~= sessions);
    lemma_innermost(sessions, other);
}

proof fn lemma_innermost(sessions: Seq<SessionView>, handle: PluginHandle)
    ensures
        innermost(sessions, handle) matches Some(i) ==> 0 <= i < sessions.len()
            && sessions[i].handle == handle,
    decreases sessions.len(),
{
    if sessions.len() > 0 && sessions.last().handle != handle {
        lemma_innermost(sessions.drop_last(), handle);
    }
}

impl Sessions {
    /// No call is under way.
    pub fn new() -> (r: Sessions)
        ensures
            r@ == Seq::<SessionView>::empty(),
    {
        let r = Sessions { frames: Vec::new() };
        assert(r@ =~= Seq::<SessionView>::empty());
        r
    }

    /// Begins a call into a plugin.
    pub fn enter(&mut self, handle: PluginHandle, context: u64)
        ensures
            final(self)@ == entered(old(self)@, handle, context),
    {
        let ghost before = self@;
        self.frames.push(Session { handle, context, scratch: None });
        assert(self@ =~= entered(before, handle, context));
    }

    /// Ends a call into a plugin.
    pub fn leave(&mut self, handle: PluginHandle)
        ensures
            final(self)@ == left(old(self)@, handle),
    {
        let ghost before = self@;
        let n = self.frames.len();
        if n > 0 && self.frames[n - 1].handle == handle {
            let _ = self.frames.pop();
            assert(self@ =~= before.drop_last());
        }
    }

    /// The place of the innermost session of a plugin instance.
    fn find(&self, handle: PluginHandle) -> (r: Option<usize>)
        ensures
            match r {
                Some(i) => innermost(self@, handle) == Some(i as int) && i < self.frames@.len(),
                None => innermost(self@, handle) is None,
            },
    {
        let mut n: usize = self.frames.len();
        assert(self@.take(n as int) =~= self@);
        while n > 0
            invariant
                n <= self.frames@.len(),
                innermost(self@, handle) == innermost(self@.take(n as int), handle),
            decreases n,
        {
            assert(self@.take(n as int).last() == self.frames@[n - 1]@);
            if self.frames[n - 1].handle == handle {
                return Some(n - 1);
            }
            assert(self@.take(n as int).drop_last() =~= self@.take(n - 1));
            n -= 1;
        }
        None
    }

    /// The context of the innermost session of a plugin instance.
    pub fn session_ctx(&self, handle: PluginHandle) -> (r: Option<u64>)
        ensures
            r == context_of(self@, handle),
    {
        match self.find(handle) {
            Some(i) => Some(self.frames[i].context),
            None => None,
        }
    }

    /// Hands a text out through the innermost session of a plugin instance; says whether it could.
    pub fn set_scratch(&mut self, handle: PluginHandle, text: String) -> (r: bool)
        ensures
            r == (is_c_text(text@) && innermost(old(self)@, handle) is Some),
            final(self)@ == (if is_c_text(text@) {
                scratched(old(self)@, handle, text@)
            } else {
                old(self)@
            }),
    {
        if has_nul(text.as_str()) {
            return false;
        }
        let ghost before = self@;
        match self.find(handle) {
            Some(i) => {
                let ghost given = text@;
                let frame = &mut self.frames[i];
                frame.scratch = Some(text);
                assert(self@ =~= scratched(before, handle, given));
                true
            },
            None => false,
        }
    }
}

fn has_nul(text: &str) -> (r: bool)
    ensures
        r == !is_c_text(text@),
{
    let chars = crate::text::char_vec(text);
    let mut i: usize = 0;
    while i < chars.len()
        invariant
            i <= chars@.len(),
            chars@ == text@,
            forall|j: int| 0 <= j < i ==> chars@[j] != '\0',
        decreases chars@.len() - i,
    {
        if chars[i] == '\0' {
            assert(text@[i as int] == '\0');
            return true;
        }
        i += 1;
    }
    false
}

/// A value in the host's store: data, or an object that has no notation.
pub enum StoreValue {
    Data(Yaml),
    Opaque,
}

/// The data of a store value, if it is data.
pub open spec fn data_of(value: StoreValue) -> Option<YamlView> {
    match value {
        StoreValue::Data(data) => Some(data@),
        StoreValue::Opaque => None,
    }
}

/// The JSON notation of a store value, if it has one.
pub open spec fn json_of(data: Option<YamlView>) -> Option<Seq<char>> {
    match data {
        Some(value) => json_notation(value),
        None => None,
    }
}

/// The JSON notation of a store value, if it has one.
pub fn value_to_json(value: &StoreValue) -> (r: Option<String>)
    ensures
        text_option(r) == json_of(data_of(*value)),
{
    match value {
        StoreValue::Data(data) => to_json_text(data),
        StoreValue::Opaque => None,
    }
}

/// A value, or null where there is none.
pub open spec fn or_null(value: Option<YamlView>) -> YamlView {
    match value {
        Some(v) => v,
        None => YamlView::Null,
    }
}

/// A value, or null where there is none.
pub fn value_or_null(value: Option<Yaml>) -> (r: Yaml)
    ensures
        r@ == or_null(option_view(value)),
{
    match value {
        Some(v) => v,
        None => Yaml::null(),
    }
}

/// What a JSON payload holds, null where it is no JSON.
pub fn payload_to_value(payload: &str) -> (r: Yaml)
    ensures
        r@ == or_null(json_parsed(payload@)),
{
    value_or_null(parse_json(payload))
}

/// An event argument as it is handed to a plugin: read back from its notation, null where it has
/// none.
pub open spec fn argument_of(data: Option<YamlView>) -> YamlView {
    or_null(
        match json_of(data) {
            Some(text) => json_parsed(text),
            None => None,
        },
    )
}

/// The event arguments as they are handed to a plugin.
pub open spec fn arguments_of(args: Seq<StoreValue>) -> YamlView {
    YamlView::Sequence(Seq::new(args.len(), |i: int| argument_of(data_of(args[i]))))
}

/// A notation of a list, or that of the empty list where there is none.
pub open spec fn or_empty_list(notation: Option<Seq<char>>) -> Seq<char> {
    match notation {
        Some(text) => text,
        None => "[]"@,
    }
}

/// A notation of a list, or that of the empty list where there is none.
pub fn list_or_empty(notation: Option<String>) -> (r: String)
    ensures
        r@ == or_empty_list(text_option(notation)),
{
    match notation {
        Some(text) => text,
        None => "[]".to_owned(),
    }
}

/// The JSON array of event arguments.
pub fn args_to_json(args: &Vec<StoreValue>) -> (r: String)
    ensures
        r@ == or_empty_list(json_notation(arguments_of(args@))),
{
    let mut items: Vec<Yaml> = Vec::new();
    let mut i: usize = 0;
    while i < args.len()
        invariant
            i <= args@.len(),
            items@.len() == i,
            forall|j: int| 0 <= j < i ==> (#[trigger] items@[j])@ == argument_of(data_of(args@[j])),
        decreases args@.len() - i,
    {
        let item = match value_to_json(&args[i]) {
            Some(text) => payload_to_value(text.as_str()),
            None => value_or_null(None),
        };
        items.push(item);
        i += 1;
    }
    assert(value_views(items@) =~= arguments_of(args@)->Sequence_0);
    list_or_empty(to_json_text(&Yaml::list(items)))
}

/// A service that a plugin provides: in which context, and the value.
pub struct Provided {
    pub context: u64,
    pub value: Yaml,
}

/// A request of a plugin to provide a service: none where a text is missing or the plugin is not
/// being called.
pub fn host_provide(
    sessions: &Sessions,
    handle: PluginHandle,
    name: Option<&str>,
    payload: Option<&str>,
) -> (r: Option<Provided>)
    ensures
        r is Some <==> name is Some && payload is Some && context_of(sessions@, handle) is Some,
        r matches Some(provided) ==> Some(provided.context) == context_of(sessions@, handle)
            && provided.value@ == or_null(json_parsed(payload->0@)),
{
    match (name, payload) {
        (Some(_), Some(payload)) => match sessions.session_ctx(handle) {
            Some(context) => Some(Provided { context, value: payload_to_value(payload) }),
            None => None,
        },
        _ => None,
    }
}

/// What a request to provide a service is answered: zero where it was provided.
pub fn provide_code(provided: bool) -> (r: i32)
    ensures
        r == (if provided {
            0i32
        } else {
            1i32
        }),
{
    if provided {
        0
    } else {
        1
    }
}

/// A request of a plugin for a service, or to listen to an event: the context that it concerns,
/// none where the name is missing or the plugin is not being called.
pub fn host_lookup(sessions: &Sessions, handle: PluginHandle, name: Option<&str>) -> (r: Option<u64>)
    ensures
        r == (if name is Some {
            context_of(sessions@, handle)
        } else {
            None
        }),
{
    match name {
        Some(_) => sessions.session_ctx(handle),
        None => None,
    }
}

/// Answers a request for a service with the value found, if any: its notation is handed out
/// through the session. Says whether there is something handed out.
pub fn host_get(sessions: &mut Sessions, handle: PluginHandle, value: &Option<StoreValue>) -> (r: bool)
    ensures
        ({
            let notation = match *value {
                Some(v) => json_of(data_of(v)),
                None => None,
            };
            &&& r == (notation is Some && is_c_text(notation->0) && innermost(
                old(sessions)@,
                handle,
            ) is Some)
            &&& final(sessions)@ == (if notation is Some && is_c_text(notation->0) {
                scratched(old(sessions)@, handle, notation->0)
            } else {
                old(sessions)@
            })
        }),
{
    match value {
        Some(v) => match value_to_json(v) {
            Some(text) => sessions.set_scratch(handle, text),
            None => false,
        },
        None => false,
    }
}

/// What an event with these arguments is handed to a plugin's listener as: their notation where the
/// plugin instance is live, and none where it is gone.
pub open spec fn event_text(
    live: Set<PluginHandle>,
    handle: PluginHandle,
    args: Seq<StoreValue>,
) -> Option<Seq<char>> {
    if live.contains(handle) {
        let notation = or_empty_list(json_notation(arguments_of(args)));
        if is_c_text(notation) {
            Some(notation)
        } else {
            Some("[]"@)
        }
    } else {
        None
    }
}

/// What an event is handed to a plugin's listener as: none where the plugin instance is gone.
pub fn host_on(live: &LiveHandles, handle: PluginHandle, args: &Vec<StoreValue>) -> (r: Option<String>)
    ensures
        text_option(r) == event_text(live@, handle, args@),
{
    if !is_handle_live(live, handle) {
        return None;
    }
    let text = args_to_json(args);
    if has_nul(text.as_str()) {
        return Some("[]".to_owned());
    }
    Some(text)
}

/// A listener of a plugin instance, in the context that it listens in.
#[derive(PartialEq, Eq, Structural, Clone, Copy)]
pub struct Listener {
    pub handle: PluginHandle,
    pub context: u64,
}

impl Listener {
    /// An event is emitted: what the listener is called with, in a session of its own that has
    /// begun. Where the plugin instance is gone it is not called, and no session begins.
    pub fn begin(
        &self,
        live: &LiveHandles,
        sessions: &mut Sessions,
        args: &Vec<StoreValue>,
    ) -> (r: Option<String>)
        ensures
            text_option(r) == event_text(live@, self.handle, args@),
            final(sessions)@ == (if live@.contains(self.handle) {
                entered(old(sessions)@, self.handle, self.context)
            } else {
                old(sessions)@
            }),
    {
        let text = host_on(live, self.handle, args);
        if text.is_some() {
            sessions.enter(self.handle, self.context);
        }
        text
    }

    /// The call of the listener is over.
    pub fn end(&self, sessions: &mut Sessions)
        ensures
            final(sessions)@ == left(old(sessions)@, self.handle),
    {
        sessions.leave(self.handle);
    }
}

/// What happens on the threads of a host: a plugin instance comes or goes, or an event is emitted
/// on a thread.
pub enum HostStep {
    Handle(HandleCall),
    Emit(int, Seq<StoreValue>),
}

/// The calls among the steps that mark plugin instances.
pub open spec fn handle_calls(steps: Seq<HostStep>) -> Seq<HandleCall>
    decreases steps.len(),
{
    if steps.len() == 0 {
        Seq::empty()
    } else {
        let before = handle_calls(steps.drop_last());
        match steps.last() {
            HostStep::Handle(call) => before.push(call),
            HostStep::Emit(..) => before,
        }
    }
}

/// What a listener on a thread is called with in the course of the steps, call by call.
pub open spec fn heard(listener: Listener, thread: int, steps: Seq<HostStep>) -> Seq<Seq<char>>
    decreases steps.len(),
{
    if steps.len() == 0 {
        Seq::empty()
    } else {
        let front = steps.drop_last();
        let before = heard(listener, thread, front);
        match steps.last() {
            HostStep::Emit(on, args) => if on == thread {
                match event_text(live_after(handle_calls(front), thread), listener.handle, args) {
                    Some(text) => before.push(text),
                    None => before,
                }
            } else {
                before
            },
            HostStep::Handle(_) => before,
        }
    }
}

/// An event that is emitted on the thread of a listener calls it exactly once where the latest call
/// for its plugin instance on that thread marked it as live, and not at all otherwise. The call is
/// made with the notation of the arguments, in a session that belongs to the listener's context and
/// is gone after it.
pub proof fn each_emission_is_heard_once(
    listener: Listener,
    thread: int,
    steps: Seq<HostStep>,
    args: Seq<StoreValue>,
    sessions: Seq<SessionView>,
)
    ensures
        ({
            let calls = handle_calls(steps);
            let before = heard(listener, thread, steps);
            let after = heard(listener, thread, steps.push(HostStep::Emit(thread, args)));
            let notation = or_empty_list(json_notation(arguments_of(args)));
            if exists|i: int|
                #[trigger] is_latest(calls, i) && calls[i].thread == thread && calls[i].handle
                    == listener.handle && calls[i].registers {
                after == before.push(
                    if is_c_text(notation) {
                        notation
                    } else {
                        "[]"@
                    },
                )
            } else {
                after == before
            }
        }),
        ({
            let within = entered(sessions, listener.handle, listener.context);
            context_of(within, listener.handle) == Some(listener.context) && left(
                within,
                listener.handle,
            ) == sessions
        }),
{
    let all = steps.push(HostStep::Emit(thread, args));
    assert(all.drop_last() =~= steps);
    live_when_last_registered(handle_calls(steps), thread, listener.handle);
    calls_are_balanced(sessions, listener.handle, listener.context);
}

/// Events that are emitted on other threads do not call a listener.
pub proof fn other_threads_are_not_heard(
    listener: Listener,
    thread: int,
    steps: Seq<HostStep>,
    on: int,
    args: Seq<StoreValue>,
)
    requires
        on != thread,
    ensures
        heard(listener, thread, steps.push(HostStep::Emit(on, args))) == heard(
            listener,
            thread,
            steps,
        ),
{
    assert(steps.push(HostStep::Emit(on, args)).drop_last() =~= steps);
}

/// Whether a step marks a plugin instance as live on a thread.
pub open spec fn revives(step: HostStep, thread: int, handle: PluginHandle) -> bool {
    match step {
        HostStep::Handle(call) => call.thread == thread && call.handle == handle && call.registers,
        HostStep::Emit(..) => false,
    }
}

/// Once its plugin instance is marked as disposed on its thread a listener is never called again,
/// unless the instance is marked as live there anew.
pub proof fn disposed_listeners_are_silent(
    listener: Listener,
    thread: int,
    before: Seq<HostStep>,
    later: Seq<HostStep>,
)
    requires
        forall|i: int|
            0 <= i < later.len() ==> !revives(#[trigger] later[i], thread, listener.handle),
    ensures
        ({
            let gone = before.push(
                HostStep::Handle(
                    HandleCall { thread, handle: listener.handle, registers: false },
                ),
            );
            &&& heard(listener, thread, gone + later) == heard(listener, thread, before)
            &&& !live_after(handle_calls(gone + later), thread).contains(listener.handle)
        }),
    decreases later.len(),
{
    let call = HandleCall { thread, handle: listener.handle, registers: false };
    let gone = before.push(HostStep::Handle(call));
    assert(gone.drop_last() =~= before);
    if later.len() == 0 {
        assert(gone + later =~= gone);
        assert(handle_calls(before).push(call).drop_last() =~= handle_calls(before));
    } else {
        let front = later.drop_last();
        assert forall|i: int| 0 <= i < front.len() implies !revives(
            #[trigger] front[i],
            thread,
            listener.handle,
        ) by {
            assert(front[i] == later[i]);
        }
        disposed_listeners_are_silent(listener, thread, before, front);
        let all = gone + later;
        assert(all.drop_last() =~= gone + front);
        assert(!revives(later[later.len() - 1], thread, listener.handle));
        if let HostStep::Handle(next) = later.last() {
            assert(handle_calls(gone + front).push(next).drop_last() =~= handle_calls(
                gone + front,
            ));
        }
    }
}

/// Once a plugin instance is marked as disposed on a thread, and until it is marked as live there
/// again, no event of that thread reaches its listeners.
pub proof fn disposed_plugins_hear_nothing(
    calls: Seq<HandleCall>,
    at: int,
    args: Seq<StoreValue>,
)
    requires
        0 <= at < calls.len(),
        !calls[at].registers,
        forall|j: int|
            at < j < calls.len() && (#[trigger] calls[j]).thread == calls[at].thread
                && calls[j].handle == calls[at].handle ==> !calls[j].registers,
    ensures
        event_text(live_after(calls, calls[at].thread), calls[at].handle, args) is None,
{
    let thread = calls[at].thread;
    let handle = calls[at].handle;
    live_when_last_registered(calls, thread, handle);
    if live_after(calls, thread).contains(handle) {
        let i = choose|i: int|
            #[trigger] is_latest(calls, i) && calls[i].thread == thread && calls[i].handle == handle
                && calls[i].registers;
        if i < at {
            assert(calls[at].thread == calls[i].thread);
        }
    }
}

/// While a plugin instance is live, each event reaches its listeners as the notation of its
/// arguments, in a session that belongs to the context they listen in.
pub proof fn live_plugins_hear_events(
    calls: Seq<HandleCall>,
    at: int,
    args: Seq<StoreValue>,
    sessions: Seq<SessionView>,
    context: u64,
)
    requires
        is_latest(calls, at),
        calls[at].registers,
    ensures
        ({
            let text = event_text(live_after(calls, calls[at].thread), calls[at].handle, args);
            let notation = or_empty_list(json_notation(arguments_of(args)));
            text is Some && (is_c_text(notation) ==> text == Some(notation))
        }),
        context_of(entered(sessions, calls[at].handle, context), calls[at].handle) == Some(context),
{
    live_when_last_registered(calls, calls[at].thread, calls[at].handle);
    calls_are_balanced(sessions, calls[at].handle, context);
}

/// An event that a plugin emits: in which context, and the arguments.
pub struct Emitted {
    pub context: u64,
    pub args: Vec<Yaml>,
}

/// The arguments of an event: the items of a list, any other value on its own.
pub open spec fn event_args(value: YamlView) -> Seq<YamlView> {
    match value {
        YamlView::Sequence(items) => items,
        other => seq![other],
    }
}

/// A request of a plugin to emit an event: none where a text is missing or the plugin is not being
/// called.
pub fn host_emit(
    sessions: &Sessions,
    handle: PluginHandle,
    event: Option<&str>,
    payload: Option<&str>,
) -> (r: Option<Emitted>)
    ensures
        r is Some <==> event is Some && payload is Some && context_of(sessions@, handle) is Some,
        r matches Some(emitted) ==> Some(emitted.context) == context_of(sessions@, handle)
            && value_views(emitted.args@) == event_args(or_null(json_parsed(payload->0@))),
{
    match (event, payload) {
        (Some(_), Some(payload)) => match sessions.session_ctx(handle) {
            Some(context) => Some(Emitted { context, args: split_args(payload_to_value(payload)) }),
            None => None,
        },
        _ => None,
    }
}

/// The arguments of an event.
pub fn split_args(value: Yaml) -> (r: Vec<Yaml>)
    ensures
        value_views(r@) == event_args(value@),
{
    proof {
        lemma_value_view(&value);
    }
    match value {
        Yaml::Sequence(items) => items,
        other => {
            let mut args: Vec<Yaml> = Vec::new();
            args.push(other);
            assert(value_views(args@) =~= seq![other@]);
            args
        },
    }
}

/// A disposer of a plugin may run only while its instance is live.
pub fn host_effect_disposer(live: &LiveHandles, handle: PluginHandle) -> (r: bool)
    ensures
        r == live@.contains(handle),
{
    is_handle_live(live, handle)
}

/// The tasks that a plugin instance spawned on the host, by number, and the library that they keep
/// loaded.
pub struct HostRuntime {
    pub tasks: Vec<u64>,
    pub library: Option<u64>,
}

impl HostRuntime {
    /// A runtime without tasks and without a library.
    pub fn new() -> (r: HostRuntime)
        ensures
            r.tasks@ == Seq::<u64>::empty(),
            r.library is None,
    {
        HostRuntime::with_library(None)
    }

    /// A runtime without tasks.
    pub fn with_library(library: Option<u64>) -> (r: HostRuntime)
        ensures
            r.tasks@ == Seq::<u64>::empty(),
            r.library == library,
    {
        HostRuntime { tasks: Vec::new(), library }
    }

    /// Notes a spawned task; gives the library that it keeps loaded.
    pub fn spawn(&mut self, task: u64) -> (r: Option<u64>)
        ensures
            final(self).tasks@ == old(self).tasks@.push(task),
            final(self).library == old(self).library,
            r == old(self).library,
    {
        self.tasks.push(task);
        self.library
    }

    /// Forgets all tasks and gives them back, to be aborted.
    pub fn cancel_all(&mut self) -> (r: Vec<u64>)
        ensures
            r@ == old(self).tasks@,
            final(self).tasks@ == Seq::<u64>::empty(),
            final(self).library == old(self).library,
    {
        let mut tasks: Vec<u64> = Vec::new();
        std::mem::swap(&mut tasks, &mut self.tasks);
        tasks
    }
}

} // verus!
