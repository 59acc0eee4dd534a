use cordis::bridge::{
    args_to_json, host_effect_disposer, host_emit, host_get, host_lookup, host_on, host_provide,
    is_handle_live, list_or_empty, payload_to_value, provide_code, register_handle,
    unregister_handle, value_or_null, value_to_json, HostRuntime, Listener, LiveHandles,
    PluginHandle, Sessions, StoreValue,
};
use cordis::value::Yaml;
use cordis::yaml::{from_yaml, to_text};

fn yaml(text: &str) -> Yaml {
    from_yaml(serde_yaml_ng::from_str(text).unwrap())
}

fn handle(address: usize) -> PluginHandle {
    PluginHandle { address }
}

#[test]
fn host_thread_discipline_and_live_handle_guard() {
    let mut live = LiveHandles::new();
    assert!(!is_handle_live(&live, handle(1)));
    register_handle(&mut live, handle(1));
    register_handle(&mut live, handle(1));
    register_handle(&mut live, handle(2));
    assert!(is_handle_live(&live, handle(1)));
    unregister_handle(&mut live, handle(1));
    assert!(!is_handle_live(&live, handle(1)));
    assert!(is_handle_live(&live, handle(2)));
    unregister_handle(&mut live, handle(1));
    assert!(host_effect_disposer(&live, handle(2)));
    assert!(!host_effect_disposer(&live, handle(1)));
    // Outside a call there is no session.
    let mut sessions = Sessions::new();
    assert!(host_provide(&sessions, handle(2), Some("s"), Some("1")).is_none());
    assert!(host_lookup(&sessions, handle(2), Some("s")).is_none());
    assert!(host_emit(&sessions, handle(2), Some("e"), Some("[]")).is_none());
    assert!(!host_get(&mut sessions, handle(2), &Some(StoreValue::Data(Yaml::Null))));
}

#[test]
fn sessions_nest() {
    let mut sessions = Sessions::new();
    sessions.enter(handle(1), 10);
    sessions.enter(handle(2), 20);
    sessions.enter(handle(1), 11);
    assert_eq!(sessions.session_ctx(handle(1)), Some(11));
    assert_eq!(sessions.session_ctx(handle(2)), Some(20));
    sessions.leave(handle(2));
    assert_eq!(sessions.session_ctx(handle(1)), Some(11));
    sessions.leave(handle(1));
    assert_eq!(sessions.session_ctx(handle(1)), Some(10));
    sessions.leave(handle(2));
    assert_eq!(sessions.session_ctx(handle(2)), None);
    assert_eq!(host_lookup(&sessions, handle(1), Some("s")), Some(10));
    assert_eq!(host_lookup(&sessions, handle(1), None), None);
}

#[test]
fn services_cross_as_json() {
    let mut sessions = Sessions::new();
    sessions.enter(handle(1), 10);
    let provided = host_provide(&sessions, handle(1), Some("s"), Some("{\"a\": [1]}")).unwrap();
    assert_eq!(provided.context, 10);
    assert!(provided.value.same_as(&yaml("{a: [1]}")));
    let broken = host_provide(&sessions, handle(1), Some("s"), Some("{")).unwrap();
    assert!(matches!(broken.value, Yaml::Null));
    assert!(host_provide(&sessions, handle(1), None, Some("1")).is_none());
    assert!(host_provide(&sessions, handle(1), Some("s"), None).is_none());
    assert_eq!((provide_code(true), provide_code(false)), (0, 1));

    assert!(host_get(&mut sessions, handle(1), &Some(StoreValue::Data(yaml("{a: x}")))));
    assert_eq!(sessions.frames[0].scratch.as_deref(), Some("{\"a\":\"x\"}"));
    assert!(!host_get(&mut sessions, handle(1), &Some(StoreValue::Opaque)));
    assert!(!host_get(&mut sessions, handle(1), &None));
    assert!(!sessions.set_scratch(handle(1), "a\0b".to_string()));
    assert!(!sessions.set_scratch(handle(9), "a".to_string()));
    assert_eq!(sessions.frames[0].scratch.as_deref(), Some("{\"a\":\"x\"}"));
}

#[test]
fn events_cross_as_json() {
    let mut sessions = Sessions::new();
    sessions.enter(handle(1), 10);
    let emitted = host_emit(&sessions, handle(1), Some("e"), Some("[1, \"x\"]")).unwrap();
    assert_eq!(emitted.context, 10);
    assert_eq!(emitted.args.len(), 2);
    let single = host_emit(&sessions, handle(1), Some("e"), Some("{\"a\": 1}")).unwrap();
    assert_eq!(single.args.len(), 1);
    assert!(single.args[0].same_as(&yaml("{a: 1}")));

    let args = vec![
        StoreValue::Data(yaml("x")),
        StoreValue::Opaque,
        StoreValue::Data(yaml("{a: 1.5}")),
    ];
    assert_eq!(args_to_json(&args), "[\"x\",null,{\"a\":1.5}]");
    assert_eq!(args_to_json(&vec![]), "[]");
    let mut live = LiveHandles::new();
    assert!(host_on(&live, handle(1), &args).is_none());
    register_handle(&mut live, handle(1));
    assert_eq!(host_on(&live, handle(1), &args).as_deref(), Some("[\"x\",null,{\"a\":1.5}]"));
    unregister_handle(&mut live, handle(1));
    assert!(host_on(&live, handle(1), &args).is_none());
    register_handle(&mut live, handle(1));
}

#[test]
fn values_have_notations() {
    assert_eq!(value_to_json(&StoreValue::Data(yaml("true"))).as_deref(), Some("true"));
    assert_eq!(value_to_json(&StoreValue::Data(yaml("-3"))).as_deref(), Some("-3"));
    assert_eq!(value_to_json(&StoreValue::Opaque), None);
    // A mapping whose key is a list has no JSON notation.
    assert_eq!(value_to_json(&StoreValue::Data(yaml("{[1]: 2}"))), None);
    assert_eq!(to_text(&payload_to_value("[1, null]")).unwrap(), "- 1\n- null\n");
    assert!(matches!(value_or_null(None), Yaml::Null));
    assert_eq!(list_or_empty(None), "[]");
}

#[test]
fn dispose_cancels_pending_spawns() {
    let mut runtime = HostRuntime::with_library(Some(3));
    assert_eq!(runtime.spawn(7), Some(3));
    assert_eq!(runtime.spawn(8), Some(3));
    assert_eq!(runtime.cancel_all(), vec![7, 8]);
    assert!(runtime.cancel_all().is_empty());
    assert!(HostRuntime::new().library.is_none());
}

#[test]
fn listeners_are_called_in_sessions_of_their_own() {
    let mut live = LiveHandles::new();
    let mut sessions = Sessions::new();
    let listener = Listener { handle: handle(1), context: 7 };
    let args = vec![StoreValue::Data(Yaml::Bool(true))];
    assert!(listener.begin(&live, &mut sessions, &args).is_none());
    assert_eq!(sessions.session_ctx(handle(1)), None);
    register_handle(&mut live, handle(1));
    for _ in 0..2 {
        assert_eq!(listener.begin(&live, &mut sessions, &args).as_deref(), Some("[true]"));
        assert_eq!(sessions.session_ctx(handle(1)), Some(7));
        listener.end(&mut sessions);
        assert_eq!(sessions.session_ctx(handle(1)), None);
    }
    unregister_handle(&mut live, handle(1));
    assert!(listener.begin(&live, &mut sessions, &args).is_none());
}
