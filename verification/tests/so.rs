use cordis::abi::{
    plugin_api_version, plugin_create, plugin_meta, request_outcome, sleep_millis, timeout,
    Interval, Received, Spawned,
};
use cordis::bridge::{is_handle_live, LiveHandles, PluginHandle};
use cordis::loader::{so_apply, so_config, SoApply};
use cordis::so::{
    is_plugin_path, metadata, LoadError, Loading, PluginMeta, SoPlugin, PLUGIN_API_VERSION,
};
use cordis::yaml::from_yaml;

fn ok(n: u32) -> Result<u32, String> {
    Ok(n)
}

fn err(message: &str) -> Result<u32, String> {
    Err(message.to_string())
}

#[test]
fn e3_so_plugin_name_classification() {
    assert!(!is_plugin_path("cordis:logger"));
    assert!(!is_plugin_path("@cordisjs/plugin-group"));
    assert!(is_plugin_path("plugins/foo.so"));
    assert!(is_plugin_path("plugins/foo.dylib"));
    assert!(is_plugin_path(r"plugins\foo.dll"));
    assert!(is_plugin_path("foo.dll"));
}

#[test]
fn so_plugin_name_classification() {
    assert!(!is_plugin_path("cordis:logger"));
    assert!(!is_plugin_path("@cordisjs/plugin-group"));
    assert!(is_plugin_path("plugins/foo.so"));
    assert!(is_plugin_path("plugins/foo.dylib"));
    assert!(is_plugin_path(r"plugins\foo.dll"));
    assert!(is_plugin_path("foo.dll"));
}

#[test]
fn so_missing_file_error_includes_path() {
    let missing = "/tmp/cordis-no-such-plugin.dylib";
    let error = SoPlugin::load(missing, vec![err("no such file")]).err().unwrap();
    assert!(matches!(error, LoadError::Open { .. }));
    let text = error.to_text();
    assert!(text.contains(missing), "{text}");
    assert_eq!(text, "cannot open plugin \"/tmp/cordis-no-such-plugin.dylib\": no such file");
}

#[test]
fn so_version_mismatch_is_rejected() {
    let error = SoPlugin::load("libbad.so", vec![ok(0), ok(PLUGIN_API_VERSION + 1)]).err().unwrap();
    assert!(matches!(
        error,
        LoadError::VersionMismatch { found, expected: PLUGIN_API_VERSION, .. }
            if found == PLUGIN_API_VERSION + 1
    ));
    let text = error.to_text();
    assert!(text.contains(&format!("exports ABI version {}", PLUGIN_API_VERSION + 1)));
    assert_eq!(text, "plugin \"libbad.so\" exports ABI version 6, expected 5");
}

#[test]
fn missing_symbol_is_rejected() {
    let path = "libcordis_fixture_not_a_plugin.so";
    let error = SoPlugin::load(path, vec![ok(0), err("undefined symbol")]).err().unwrap();
    assert!(matches!(&error, LoadError::MissingSymbol { symbol, .. } if symbol == "plugin_api_version"));
    let text = error.to_text();
    assert!(text.contains("missing symbol plugin_api_version"), "{text}");
    assert!(text.contains("cordis_fixture_not_a_plugin"), "{text}");
    for (results, symbol) in [
        (vec![ok(0), ok(5), err("x")], "plugin_create"),
        (vec![ok(0), ok(5), ok(0), err("x")], "plugin_dispose"),
    ] {
        let error = SoPlugin::load("a\"b.so", results).err().unwrap();
        assert_eq!(
            error.to_text(),
            format!("plugin \"a\\\"b.so\" is missing symbol {symbol}: x")
        );
    }
}

#[test]
fn optional_symbols_may_be_missing() {
    let bare = vec![ok(0), ok(5), ok(0), ok(0), err("x"), err("x"), err("x")];
    let plugin = SoPlugin::load("lib.so", bare).ok().unwrap();
    assert_eq!(plugin.version(), 5);
    assert_eq!(plugin.path(), "lib.so");
    assert!(!plugin.validator());
    assert!(!plugin.apply_fn());
    let full = vec![ok(0), ok(5), ok(0), ok(0), ok(0), ok(0), ok(0)];
    let plugin = SoPlugin::load("lib.so", full).ok().unwrap();
    assert!(plugin.validator());
    assert!(plugin.apply_fn());
    let mut loading = Loading::start();
    for result in [ok(0), ok(5), ok(0), ok(0), ok(0), err("x"), ok(0)] {
        loading = loading.advance("lib.so", result).ok().unwrap();
    }
    assert!(loading.has_meta && !loading.has_validate && loading.has_apply);
}

#[test]
fn instances_are_live_between_create_and_dispose() {
    let mut live = LiveHandles::new();
    let full = vec![ok(0), ok(5), ok(0), ok(0), ok(0), ok(0), ok(0)];
    let mut plugin = SoPlugin::load("lib.so", full).ok().unwrap();
    assert!(plugin.handle_ptr().is_none());
    plugin.create(None, &mut live);
    assert!(plugin.handle_ptr().is_none());
    let handle = PluginHandle { address: 16 };
    plugin.create(Some(handle), &mut live);
    assert!(plugin.handle_ptr() == Some(handle));
    assert!(is_handle_live(&live, handle));
    assert!(plugin.dispose(&mut live) == Some(handle));
    assert!(!is_handle_live(&live, handle));
    assert!(plugin.dispose(&mut live).is_none());
}

#[test]
fn metadata_errors() {
    assert_eq!(metadata(None).err().unwrap(), "plugin_meta returned null");
    assert_eq!(
        metadata(Some(Err("bad".to_string()))).err().unwrap(),
        "invalid plugin metadata: bad"
    );
    let meta = PluginMeta {
        name: "demo".to_string(),
        version: None,
        inject: vec![],
        provide: vec![],
        deps: vec![],
    };
    assert_eq!(metadata(Some(Ok(meta))).ok().unwrap().name, "demo");
}

#[test]
fn applying_an_exported_plugin() {
    assert!(matches!(so_apply("p", Some(1), true, true), SoApply::Rejected(m) if m == "config rejected by plugin p"));
    assert!(matches!(so_apply("p", Some(0), true, false), SoApply::Disposed(m) if m == "plugin p instance is disposed"));
    assert!(matches!(so_apply("p", None, true, true), SoApply::Call));
    assert!(matches!(so_apply("p", None, false, false), SoApply::Nothing));
    assert_eq!(so_config(&None), "null");
    let config = from_yaml(serde_yaml_ng::from_str("{a: 1}").unwrap());
    assert_eq!(so_config(&Some(config)), "{\"a\":1}");
}

#[test]
fn abi_symbols_are_exported() {
    assert_eq!(plugin_api_version(), PLUGIN_API_VERSION);
    assert!(plugin_create(Some(PLUGIN_API_VERSION)));
    assert!(!plugin_create(Some(PLUGIN_API_VERSION + 1)));
    assert!(!plugin_create(None));
    let meta: serde_json::Value = serde_json::from_str(&plugin_meta()).unwrap();
    assert_eq!(meta["name"], "cordis-sdk");
}

#[test]
fn spawned_results_are_handed_out_once() {
    let mut spawned = Spawned::new();
    assert!(spawned.poll(Received::<u32>::Pending).is_none());
    assert_eq!(spawned.poll(Received::Value(7)), Some(Ok(7)));
    assert_eq!(
        spawned.poll(Received::Value(8)),
        Some(Err("task has already been awaited".to_string()))
    );
    let mut dropped = Spawned::new();
    assert_eq!(
        dropped.poll(Received::<u32>::Dropped),
        Some(Err("task was cancelled".to_string()))
    );
}

#[test]
fn sleeps_and_timeouts() {
    assert_eq!(sleep_millis(1500), 1500);
    assert_eq!(sleep_millis(u64::MAX as u128 + 1), u64::MAX);
    assert_eq!(timeout(Some(1), true), Some(Ok(1)));
    assert_eq!(timeout::<u32>(None, true), Some(Err(())));
    assert_eq!(timeout::<u32>(None, false), None);
}

#[test]
fn ticks_do_not_drift() {
    let mut interval = Interval::new(10);
    assert_eq!(interval.tick(100), 10);
    // The work took 7: the wait for the next tick is shorter.
    assert_eq!(interval.tick(117), 3);
    // The work took too long: the tick is due at once, the next one stays on the grid.
    assert_eq!(interval.tick(145), 0);
    assert_eq!(interval.deadline, Some(140));
}

#[test]
fn rejected_requests_are_named() {
    assert!(request_outcome(true, "ctx.on", "\"e\"").is_ok());
    assert_eq!(
        request_outcome(false, "ctx.provide", "\"svc\"").err().unwrap(),
        "host rejected ctx.provide(\"svc\")"
    );
}

#[test]
fn paths_are_quoted_as_paths() {
    let path = "/tmp/it's \"here\".so";
    let error = LoadError::Open { path: path.to_string(), error: "gone".to_string() };
    assert_eq!(
        error.to_text(),
        format!("cannot open plugin {:?}: gone", std::path::Path::new(path))
    );
}
