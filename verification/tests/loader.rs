use cordis::changes::Action;
use cordis::dict::Dict;
use cordis::entry::Entry;
use cordis::loader::{
    group_configs, group_plugin, include_plugin, platform_name, Loader, LoaderIntercept,
    PluginEvent,
};
use cordis::mount::{missing_file, mounted_options, MissingFile, WriteState};
use cordis::options::EntryOptions;
use cordis::patches::{
    apply_patches, index_entries, IncludeConfig, Override, PatchOptions,
};
use cordis::options::IsolateValue;
use cordis::so::PluginMeta;
use cordis::bridge::PluginHandle;
use cordis::codec::{decode_list, encode_list};
use cordis::config::serialize_config;
use cordis::value::Yaml;
use cordis::yaml::{from_yaml, to_text, to_yaml};

fn yaml(text: &str) -> Yaml {
    from_yaml(serde_yaml_ng::from_str(text).unwrap())
}

fn list(text: &str) -> Vec<EntryOptions> {
    decode_list(&yaml(text)).unwrap()
}

fn opts(id: &str, name: &str) -> EntryOptions {
    EntryOptions { id: id.to_string(), name: name.to_string(), ..EntryOptions::default() }
}

fn loader() -> Loader {
    Loader::with_shared(None, ".", 1)
}

fn fresh(n: usize) -> Vec<String> {
    (0..n).map(|i| format!("fresh{i}")).collect()
}

/// Reads options and runs what the host does for a start: entries that start get the next fiber.
fn read(loader: &mut Loader, text: &str) -> Vec<String> {
    let configs = list(text);
    let actions = loader.read(&configs, &fresh(configs.len()));
    let mut shown = vec![];
    for action in actions {
        shown.push(match action {
            Action::Attach(key) => format!("attach {key}"),
            Action::Dispose(fiber) => format!("dispose {fiber}"),
            Action::Reconfigure(key, fiber) => format!("reconfigure {key} {fiber}"),
            Action::Rescope(key, names) => format!("rescope {key} {}", names.join(",")),
            Action::Start(key) => {
                let place = loader
                    .tree
                    .find(&cordis::tree::Query::Key(key))
                    .unwrap();
                if !loader.tree.disabled(&place) {
                    loader.tree.applied(&place, 100 + key);
                }
                format!("start {key}")
            }
            _ => panic!("unexpected action"),
        });
    }
    shown
}

fn ids(loader: &Loader) -> Vec<String> {
    loader.data().iter().map(|options| options.id.clone()).collect()
}

#[test]
fn loader_initiate_and_update() {
    let mut loader = loader();
    let first = read(&mut loader, "[{id: '1', name: foo}, {id: '2', name: bar, config: {a: 1}}]");
    assert_eq!(first, vec!["attach 0", "attach 1", "start 0", "start 1"]);
    assert_eq!(loader.expect_fiber("1"), 100);
    // The first is gone, the second changed, a third is new.
    let second = read(&mut loader, "[{id: '3', name: baz}, {id: '2', name: bar, config: {a: 2}}]");
    assert_eq!(second, vec!["attach 2", "reconfigure 1 101", "dispose 100", "start 2"]);
    // Kept entries come first, in their old order.
    assert_eq!(ids(&loader), vec!["2", "3"]);
    assert_eq!(loader.expect_fiber("2"), 101);
    assert_eq!(loader.tree.tasks, 1);
}

#[test]
fn rereading_is_quiet() {
    let text = "[{id: a, name: foo, config: {x: [1]}}, {id: b, name: bar, isolate: {s: true}}]";
    let mut loader = loader();
    read(&mut loader, text);
    assert!(read(&mut loader, text).is_empty());
    assert_eq!(ids(&loader), vec!["a", "b"]);
}

#[test]
fn entries_without_ids_match_by_name() {
    let mut loader = loader();
    assert_eq!(read(&mut loader, "[{id: '', name: foo}]"), vec!["attach 0", "start 0"]);
    assert_eq!(ids(&loader), vec!["fresh0"]);
    let again = read(&mut loader, "[{id: '', name: foo, config: {a: 1}}]");
    assert_eq!(again, vec!["reconfigure 0 100"]);
    // Another kind of the same name is another entry.
    let other = read(&mut loader, "[{id: '', name: foo, group: true}]");
    assert_eq!(other, vec!["attach 1", "dispose 100", "start 1"]);
    assert_eq!(ids(&loader), vec!["fresh0"]);
}

#[test]
fn disabling_by_rereading_stops() {
    let mut loader = loader();
    read(&mut loader, "[{id: a, name: foo}]");
    let actions = read(&mut loader, "[{id: a, name: foo, disabled: true}]");
    assert_eq!(actions, vec!["dispose 100"]);
    let actions = read(&mut loader, "[{id: a, name: foo}]");
    assert_eq!(actions, vec!["start 0"]);
}

#[test]
fn locate_returns_entry_id() {
    let mut loader = loader();
    read(&mut loader, "[{id: '1', name: foo}]");
    let fiber = loader.expect_fiber("1");
    assert_eq!(loader.locate(fiber).as_deref(), Some("1"));
    assert_eq!(loader.locate(1), None);
}

#[test]
fn check_reflects_await_config_and_tasks() {
    let mut loader = loader();
    let off = LoaderIntercept::default();
    assert!(loader.check(&off, &vec![]));
    loader.tree.tasks = 2;
    assert!(loader.check(&off, &vec![]));
    let on = off.merge(&LoaderIntercept::awaiting());
    assert!(!loader.check(&on, &vec![]));
    loader.tree.tasks = 0;
    assert!(loader.check(&on, &vec![]));
}

#[test]
fn env_data_parses_cordis_shared() {
    let loader = Loader::with_shared(Some(r#"{"startTime": 123}"#), ".", 1);
    assert_eq!(to_yaml(&loader.env_data)["startTime"], 123);
    let broken = Loader::with_shared(Some("{"), ".", 1);
    assert_eq!(to_text(&broken.env_data).unwrap(), "{}\n");
    let none = Loader::with_shared(None, ".", 1);
    assert_eq!(to_text(&none.env_data).unwrap(), "{}\n");
    assert!(none.tree_handle().import("cordis:@cordisjs/plugin-group").ok().unwrap().is_group);
    assert!(none.tree_handle().import("@cordisjs/plugin-group").is_ok());
}

#[test]
fn show_log_emits_apply_and_reload() {
    let mut loader = loader();
    read(&mut loader, "[{id: '1', name: foo}, {id: g, name: bar, group: true}]");
    let entry = loader.tree.resolve("1").unwrap();
    assert_eq!(loader.show_log("apply", entry).as_deref(), Some("apply plugin foo"));
    let group = loader.tree.resolve("g").unwrap();
    assert!(loader.show_log("apply", group).is_none());
    assert_eq!(
        loader.reload_log(Some(100), None, false).as_deref(),
        Some("reload plugin foo")
    );
    assert!(loader.reload_log(Some(100), None, true).is_none());
    assert!(loader.reload_log(Some(7), None, false).is_none());
    loader.tree.enable_logs = false;
    assert!(loader.reload_log(Some(100), None, false).is_none());
}

#[test]
fn normal_update_still_writes_back() {
    let mut loader = loader();
    read(&mut loader, "[{id: '1', name: foo}]");
    assert!(loader.write_back(Some(100), Some(3), false, Some(yaml("{a: 1}"))));
    assert_eq!(to_text(loader.data()[0].config.as_ref().unwrap()).unwrap(), "a: 1\n");
}

#[test]
fn no_save_skips_write_back() {
    let mut loader = loader();
    read(&mut loader, "[{id: '1', name: foo}]");
    assert!(!loader.write_back(Some(100), None, true, Some(yaml("{a: 1}"))));
    assert!(!loader.write_back(Some(100), None, false, None));
    assert!(!loader.write_back(None, None, false, Some(yaml("{a: 1}"))));
    assert!(loader.data()[0].config.is_none());
}

#[test]
fn child_fiber_does_not_write_back() {
    let mut loader = loader();
    read(&mut loader, "[{id: '1', name: foo}]");
    assert!(!loader.write_back(Some(555), Some(100), false, Some(yaml("{a: 1}"))));
    assert!(!loader.write_back(Some(100), Some(100), false, Some(yaml("{a: 1}"))));
    assert!(loader.data()[0].config.is_none());
}

#[test]
fn plugin_self_dispose_marks_disabled() {
    let mut loader = loader();
    read(&mut loader, "[{id: '1', name: foo, inject: [dep]}, {id: '2', name: bar}]");
    assert!(matches!(
        loader.plugin_event(9, true, Some(0)),
        PluginEvent::MergeInject(names) if names == vec!["dep".to_string()]
    ));
    assert!(matches!(loader.plugin_event(9, true, Some(1)), PluginEvent::Nothing));
    assert!(matches!(loader.plugin_event(9, true, None), PluginEvent::Nothing));
    assert!(matches!(loader.plugin_event(9, false, None), PluginEvent::Nothing));
    assert!(matches!(loader.plugin_event(100, false, None), PluginEvent::Disabled));
    assert_eq!(loader.data()[0].disabled, Some(true));
    assert!(matches!(loader.plugin_event(100, false, None), PluginEvent::Nothing));
}

#[test]
fn group_stop_disposes_subtree() {
    let mut loader = loader();
    read(&mut loader, "[{id: a, name: foo}, {id: b, name: foo, disabled: true}, {id: c, name: foo}]");
    let actions = loader.stop_group(&vec![]);
    let released: Vec<u64> = actions
        .iter()
        .map(|action| match action {
            Action::Release(fiber) => *fiber,
            _ => panic!("unexpected action"),
        })
        .collect();
    assert_eq!(released, vec![100, 102]);
    assert!(loader.tree.entries().iter().all(|entry| entry.fiber.is_none()));
    assert_eq!(loader.tree.tasks, 0);
}

#[test]
fn group_initialize_and_disable_chain() {
    let mut loader = loader();
    read(&mut loader, "[{id: outer, name: x, group: true, config: [{id: a, name: foo}, {id: '', name: bar}]}]");
    let configs = group_configs(&loader.data()[0].config);
    assert!(loader.apply_group(7, &configs, &fresh(2)).is_none());
    let (place, actions) = loader.apply_group(100, &configs, &fresh(2)).unwrap();
    assert!(place == vec![0]);
    assert_eq!(actions.len(), 4);
    assert_eq!(ids(&loader), vec!["outer", "a", "fresh1"]);
    // Applied again, the group keeps what it has.
    let configs = list("[{id: a, name: foo}]");
    let (_, actions) = loader.apply_group(100, &configs, &fresh(1)).unwrap();
    assert!(matches!(actions[..], [Action::Start(1)]));
    assert_eq!(ids(&loader), vec!["outer", "a"]);
}

#[test]
fn group_plugins_read_their_config() {
    assert_eq!(group_configs(&Some(yaml("[{id: a, name: b}]"))).len(), 1);
    assert_eq!(group_configs(&Some(yaml("{a: b}"))).len(), 0);
    assert_eq!(group_configs(&Some(yaml("[1]"))).len(), 0);
    assert_eq!(group_configs(&None).len(), 0);
    let group = group_plugin(4);
    assert!(group.is_group && group.inject.is_empty() && group.apply == 4);
    assert_eq!(group.name.as_deref(), Some("group"));
    let mount = include_plugin(5);
    assert_eq!(mount.name.as_deref(), Some("include"));
    assert_eq!(mount.inject, vec!["loader".to_string()]);
}

#[test]
fn nested_groups_are_read_in_place() {
    let mut loader = loader();
    read(&mut loader, "[{id: g, name: x, group: true, disabled: true}]");
    loader.tree.attach_subgroup(&vec![0]);
    let configs = list("[{id: a, name: foo}]");
    let actions = loader.tree.read_group(&vec![0], &configs, &fresh(1));
    assert_eq!(actions.len(), 2);
    assert_eq!(ids(&loader), vec!["g", "a"]);
    assert!(loader.tree.disabled(&vec![0, 0]));
    loader.tree.applied(&vec![0, 0], 55);
    // The group is disabled: reading it again stops what runs.
    let actions = loader.tree.read_group(&vec![0], &configs, &fresh(1));
    assert!(matches!(actions[..], [Action::Dispose(55)]));
}

#[test]
fn environments_and_platforms() {
    let mut loader = loader();
    loader.set_base_url("file:///x");
    let env = loader.eval_env("macos", Dict::new());
    assert_eq!(env.platform, "darwin");
    assert_eq!(env.base_url, "file:///x");
    assert_eq!(platform_name("windows"), "win32");
    assert_eq!(platform_name("linux"), "linux");
}

#[test]
fn plugins_are_registered() {
    let mut loader = loader();
    assert_eq!(loader.mock("foo", 3), "foo");
    assert_eq!(loader.tree.import("foo").ok().unwrap().apply, 3);
    loader.mock_with_inject("bar", vec!["dep".to_string()], 4);
    assert_eq!(loader.tree.import("bar").ok().unwrap().inject, vec!["dep".to_string()]);
    let meta = || PluginMeta {
        name: "so".to_string(),
        version: Some("1".to_string()),
        inject: vec!["dep".to_string()],
        provide: vec![],
        deps: vec![],
    };
    let handle = PluginHandle { address: 8 };
    assert_eq!(
        loader.register_so_plugin(None, Some(handle), 5).err().unwrap(),
        "plugin does not export plugin_meta"
    );
    assert_eq!(
        loader.register_so_plugin(Some(Err("bad".to_string())), Some(handle), 5).err().unwrap(),
        "bad"
    );
    assert_eq!(
        loader.register_so_plugin(Some(Ok(meta())), None, 5).err().unwrap(),
        "plugin instance is not created"
    );
    assert!(loader.tree.import("so").is_err());
    let made = loader.register_so_plugin(Some(Ok(meta())), Some(handle), 5).ok().unwrap();
    assert_eq!(made.name, "so");
    assert_eq!(made.inject, vec!["dep".to_string()]);
    let plugin = loader.tree.import("so").ok().unwrap();
    assert_eq!(plugin.name.as_deref(), Some("so"));
    assert_eq!(plugin.apply, 5);
}

fn patch(id: Option<&str>) -> PatchOptions {
    PatchOptions {
        id: id.map(|id| id.to_string()),
        insert: None,
        name: None,
        config: Override::Absent,
        disabled: Override::Absent,
        group: Override::Absent,
        inject: Override::Absent,
        intercept: Override::Absent,
        isolate: Override::Absent,
        extra: Dict::new(),
    }
}

const GREETER: &str = "- id: '1'\n  name: greeter\n  config:\n    value: hello\n";

const NESTED: &str = r#"
- id: outer
  name: "@cordisjs/plugin-group"
  group: true
  config:
    - id: inner
      name: "@cordisjs/plugin-group"
      group: true
      config:
        - id: leaf
          name: greeter
          config:
            value: before
"#;

fn config_value(value: &str) -> Yaml {
    yaml(&format!("{{value: {value}}}"))
}

#[test]
fn patch_overrides_group_inject_intercept_isolate() {
    let mut p = patch(Some("1"));
    p.group = Override::Put(true);
    p.inject = Override::Put(vec!["foo".to_string()]);
    p.intercept = Override::Put(yaml("{a: 1}"));
    let mut isolate: Dict<IsolateValue> = Dict::new();
    isolate.insert("svc".to_string(), IsolateValue::Label("shared".to_string()));
    p.isolate = Override::Put(isolate);
    let (data, warnings) = apply_patches(list(GREETER), &vec![p]);
    assert!(warnings.is_empty());
    assert_eq!(data[0].group, Some(true));
    assert_eq!(data[0].inject.as_deref(), Some(&["foo".to_string()][..]));
    assert!(data[0].intercept.as_ref().unwrap().same_as(&yaml("{a: 1}")));
    assert!(matches!(
        data[0].isolate.as_ref().unwrap().get("svc"),
        Some(IsolateValue::Label(label)) if label == "shared"
    ));
}

#[test]
fn patch_writes_arbitrary_extra_key_and_round_trips() {
    let mut p = patch(Some("1"));
    p.extra.insert("custom".to_string(), Yaml::Text("x".to_string()));
    let (data, _) = apply_patches(list(GREETER), &vec![p]);
    assert!(matches!(data[0].extra.get("custom"), Some(Yaml::Text(t)) if t == "x"));
    let written = serialize_config(&data).unwrap();
    assert!(written.contains("custom: x"), "{written}");
}

#[test]
fn patch_targets_two_level_nested_entry() {
    let mut p = patch(Some("leaf"));
    p.config = Override::Put(config_value("after"));
    let (data, warnings) = apply_patches(list(NESTED), &vec![p]);
    assert!(warnings.is_empty());
    let text = to_text(&encode_list(&data)).unwrap();
    assert!(text.contains("value: after") && !text.contains("value: before"), "{text}");
}

#[test]
fn patch_inserts_into_nested_subgroup() {
    let mut p = patch(Some("inner"));
    let mut added = opts("added", "noop");
    added.config = Some(config_value("added"));
    p.insert = Some(vec![added]);
    let (data, warnings) = apply_patches(list(NESTED), &vec![p]);
    assert!(warnings.is_empty());
    let index = index_entries(&data);
    assert!(index.get("added").unwrap().indices == vec![0, 0, 1]);
    assert!(index.get("leaf").unwrap().indices == vec![0, 0, 0]);
    assert!(index.get("nope").is_none());
}

#[test]
fn patch_null_clears_disabled_and_config() {
    let mut p = patch(Some("1"));
    p.disabled = Override::Clear;
    p.config = Override::Clear;
    let (data, _) = apply_patches(
        list("- id: '1'\n  name: greeter\n  disabled: true\n  config:\n    value: hello\n"),
        &vec![p],
    );
    assert_eq!(data[0].disabled, None);
    assert!(data[0].config.is_none());
}

#[test]
fn patch_after_root_insert_matches_js_semantics() {
    let mut insert = patch(None);
    let mut new1 = opts("new1", "noop");
    new1.config = Some(config_value("original"));
    insert.insert = Some(vec![new1]);
    let mut not_found = patch(Some("new1"));
    not_found.config = Override::Put(config_value("patched"));
    let mut existing = patch(Some("1"));
    existing.config = Override::Put(config_value("updated"));
    let (data, warnings) = apply_patches(list(GREETER), &vec![insert, not_found, existing]);
    assert_eq!(warnings, vec!["patch: entry new1 not found"]);
    assert!(data[0].config.as_ref().unwrap().same_as(&config_value("updated")));
    assert!(data[1].config.as_ref().unwrap().same_as(&config_value("original")));
}

#[test]
fn inserted_entries_keep_to_themselves() {
    // An entry that is inserted under an id that is there takes no patch of that id.
    let mut insert = patch(None);
    insert.insert = Some(vec![opts("1", "b")]);
    let mut disable = patch(Some("1"));
    disable.disabled = Override::Put(true);
    let (data, warnings) = apply_patches(vec![opts("1", "a")], &vec![insert, disable]);
    assert!(warnings.is_empty());
    assert_eq!(data.len(), 2);
    assert_eq!((data[0].name.as_str(), data[0].disabled), ("a", Some(true)));
    assert_eq!((data[1].name.as_str(), data[1].disabled), ("b", None));
    // Neither does one that is inserted into a group.
    let mut insert = patch(Some("inner"));
    insert.insert = Some(vec![opts("leaf", "b")]);
    let mut disable = patch(Some("leaf"));
    disable.disabled = Override::Put(true);
    let (data, warnings) = apply_patches(list(NESTED), &vec![insert, disable]);
    assert!(warnings.is_empty());
    assert!(index_entries(&data).get("leaf").unwrap().indices == vec![0, 0, 1]);
    let inner = decode_list(data[0].config.as_ref().unwrap()).unwrap();
    let leaves = decode_list(inner[0].config.as_ref().unwrap()).unwrap();
    assert_eq!((leaves[0].disabled, leaves[1].disabled), (Some(true), None));
    // The children of a config that is replaced are gone.
    let mut replace = patch(Some("inner"));
    replace.config = Override::Put(encode_list(&vec![opts("leaf", "c")]));
    let mut disable = patch(Some("leaf"));
    disable.disabled = Override::Put(true);
    let (data, warnings) = apply_patches(list(NESTED), &vec![replace, disable]);
    assert_eq!(warnings, vec!["patch: entry leaf not found"]);
    let inner = decode_list(data[0].config.as_ref().unwrap()).unwrap();
    let leaves = decode_list(inner[0].config.as_ref().unwrap()).unwrap();
    assert_eq!((leaves[0].name.as_str(), leaves[0].disabled), ("c", None));
}

#[test]
fn patch_name_mismatch_warns_and_skips() {
    let mut p = patch(Some("1"));
    p.name = Some("wrong-name".to_string());
    p.disabled = Override::Put(true);
    let (data, warnings) = apply_patches(list(GREETER), &vec![p]);
    assert_eq!(
        warnings,
        vec!["patch: name mismatch for 1 (expected greeter, got wrong-name), skipping"]
    );
    assert_eq!(data[0].disabled, None);
}

#[test]
fn patch_matching_name_applies() {
    let mut p = patch(Some("1"));
    p.name = Some("greeter".to_string());
    p.disabled = Override::Put(true);
    let (data, warnings) = apply_patches(list(GREETER), &vec![p]);
    assert!(warnings.is_empty());
    assert_eq!(data[0].disabled, Some(true));
}

#[test]
fn patch_nonexistent_id_warns() {
    let mut p = patch(Some("nope"));
    p.disabled = Override::Put(true);
    let (data, warnings) = apply_patches(list(GREETER), &vec![p]);
    assert_eq!(warnings, vec!["patch: entry nope not found"]);
    assert_eq!(data[0].disabled, None);
}

#[test]
fn patch_insert_into_non_group_warns() {
    let mut p = patch(Some("1"));
    p.insert = Some(vec![opts("extra", "noop")]);
    let mut gone = patch(Some("x"));
    gone.insert = Some(vec![opts("extra", "noop")]);
    let (data, warnings) = apply_patches(list(GREETER), &vec![p, gone, patch(Some("")), patch(None)]);
    assert_eq!(warnings, vec![
        "patch insert: entry 1 is not a group",
        "patch insert: entry x not found",
        "patch: id is required for non-insert patches",
        "patch: id is required for non-insert patches",
    ]);
    assert_eq!(data.len(), 1);
    assert!(index_entries(&data).get("extra").is_none());
}

#[test]
fn overrides_convert() {
    assert!(Override::<u8>::Absent.is_absent());
    assert!(!Override::Put(1).is_absent());
    assert_eq!(Override::Put(1).into_option(), Some(1));
    assert_eq!(Override::<u8>::Clear.into_option(), None);
}

fn mount(initial: Option<Vec<EntryOptions>>, patches: Option<Vec<PatchOptions>>) -> IncludeConfig {
    IncludeConfig { path: "a.yml".to_string(), initial, patches, enable_logs: None }
}

#[test]
fn missing_file_with_initial_creates_it() {
    let text = "- id: '1'\n  name: greeter\n  config:\n    value: created\n";
    match missing_file(&mount(Some(list(text)), None), "/a.yml") {
        MissingFile::Initial(written) => assert_eq!(written, text),
        MissingFile::NotFound(_) => panic!("the initial file must be written"),
    }
    match missing_file(&mount(None, None), "/a.yml") {
        MissingFile::Initial(_) => panic!("there is nothing to write"),
        MissingFile::NotFound(message) => assert_eq!(message, "config file not found: /a.yml"),
    }
}

#[test]
fn patch_disables_entry() {
    let mut p = patch(Some("1"));
    p.disabled = Override::Put(true);
    let (data, _) = mounted_options(&mount(None, Some(vec![p])), list(GREETER));
    assert_eq!(data[0].disabled, Some(true));
    let (data, _) = mounted_options(&mount(None, None), list(GREETER));
    assert_eq!(data[0].disabled, None);
}

#[test]
fn same_turn_writes_coalesce_but_events_fire() {
    let mut state = WriteState::new(false);
    assert!(state.request());
    assert!(!state.request());
    assert!(!state.request());
    state.finish();
    assert!(state.request());
}

#[test]
fn readonly_config_is_not_overwritten() {
    let mut loader = loader();
    read(&mut loader, "[{id: '1', name: foo}]");
    let root = vec![];
    assert_eq!(
        WriteState::new(true).write_once(&loader.tree, &root).err().unwrap(),
        "cannot overwrite readonly config"
    );
    assert_eq!(
        WriteState::new(false).write_once(&loader.tree, &root).unwrap(),
        "- id: '1'\n  name: foo\n"
    );
}

#[test]
fn include_config_refresh() {
    let mut loader = loader();
    read(&mut loader, "[{id: a, name: x}, {id: b, name: x}, {id: c, name: x}]");
    loader.tree.attach_subgroup(&vec![1]);
    loader.tree.attach_subgroup(&vec![2]);
    let files: Vec<Option<String>> =
        vec![Some("/f".to_string()), Some("/f".to_string()), Some("/f".to_string())];
    assert!(loader.tree.refresh_target(&files, "/f", true) == Some(vec![1]));
    assert!(loader.tree.refresh_target(&files, "/f", false).is_none());
    assert!(loader.tree.refresh_target(&files, "/g", true).is_none());
    let files = vec![None, None, Some("/f".to_string())];
    assert!(loader.tree.refresh_target(&files, "/f", true) == Some(vec![2]));
    assert_eq!(Entry::id(&loader.tree, &vec![2]), "c");
}
