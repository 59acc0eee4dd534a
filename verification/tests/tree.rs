use cordis::changes::Action;
use cordis::dict::Dict;
use cordis::entry::{Entry, UpdatePlan};
use cordis::evaluator::{EvalEnv, MinijinjaEvaluator};
use cordis::options::{EntryOptions, IsolateValue, PartialEntryOptions};
use cordis::random::random_hex;
use cordis::tree::{AwaitStep, EntryTree, Plugin, Query};
use cordis::value::Yaml;
use cordis::yaml::{from_yaml, to_text};

fn yaml(text: &str) -> Yaml {
    from_yaml(serde_yaml_ng::from_str(text).unwrap())
}

fn opts(id: &str, name: &str) -> EntryOptions {
    EntryOptions { id: id.to_string(), name: name.to_string(), ..EntryOptions::default() }
}

fn group_opts(id: &str) -> EntryOptions {
    EntryOptions { group: Some(true), ..opts(id, "@cordisjs/plugin-group") }
}

fn plugin(inject: &[&str]) -> Plugin {
    Plugin {
        is_group: false,
        name: None,
        inject: inject.iter().map(|name| name.to_string()).collect(),
        apply: 0,
    }
}

/// What an action is, in short.
fn show(actions: &[Action]) -> Vec<String> {
    actions
        .iter()
        .map(|action| match action {
            Action::Attach(key) => format!("attach {key}"),
            Action::Reparent(key) => format!("reparent {key}"),
            Action::Write => "write".to_string(),
            Action::Dispose(fiber) => format!("dispose {fiber}"),
            Action::Release(fiber) => format!("release {fiber}"),
            Action::Rescope(key, names) => format!("rescope {key} {}", names.join(",")),
            Action::Reconfigure(key, fiber) => format!("reconfigure {key} {fiber}"),
            Action::Init(key) => format!("init {key}"),
            Action::InitThenNotify(key, notices) => format!(
                "init {key} notify {}",
                notices
                    .iter()
                    .map(|notice| format!("{}:{}", notice.name, notice.labels.join("+")))
                    .collect::<Vec<_>>()
                    .join(",")
            ),
            Action::Start(key) => format!("start {key}"),
        })
        .collect()
}

fn ids(tree: &EntryTree) -> Vec<String> {
    tree.places().iter().map(|place| Entry::id(tree, place)).collect()
}

/// `outer` (a group) with `inner` (a group) with `leaf`, and `other` beside `outer`.
fn nested() -> EntryTree {
    let mut tree = EntryTree::new();
    let (outer, _) = tree.create(group_opts("outer"), None, 0, "");
    tree.attach_subgroup(&outer);
    let (inner, _) = tree.create(group_opts("inner"), Some("outer"), 0, "");
    tree.attach_subgroup(&inner);
    tree.create(opts("leaf", "foo"), Some("outer:inner"), 0, "");
    tree.create(opts("other", "foo"), None, 5, "");
    tree
}

#[test]
fn create_remove_and_write() {
    let mut tree = EntryTree::new();
    let mut state = 0;
    let fresh = tree.fresh_id(&mut state, 42, 10).unwrap();
    let (place, actions) = tree.create(opts("", "foo"), None, 0, &fresh);
    assert_eq!(show(&actions), vec!["attach 0", "write", "init 0"]);
    let id = Entry::id(&tree, &place);
    assert_eq!(id.len(), 8);
    assert_eq!(tree.entries().len(), 1);
    tree.begin_task();
    tree.applied(&place, 7);
    let actions = tree.remove(&id);
    assert_eq!(show(&actions), vec!["dispose 7", "write"]);
    assert_eq!(tree.entries().len(), 0);
    assert_eq!(tree.tasks, 2);
    tree.settle_task();
    tree.settle_task();
    assert_eq!(tree.tasks, 0);
}

#[test]
fn resolve_path_and_errors() {
    let mut tree = EntryTree::new();
    tree.create(opts("1", "foo"), None, 0, "");
    assert_eq!(tree.resolve_path("1").ok().unwrap().key, 0);
    assert_eq!(tree.resolve_path("missing").err().unwrap(), "cannot resolve entry missing");
    assert_eq!(tree.resolve_group(Some("1")).err().unwrap(), "entry 1 is not a group");
    assert_eq!(tree.resolve_group(Some("x:y")).err().unwrap(), "cannot resolve entry x:y");
    assert!(tree.resolve_group(None).is_ok());
}

#[test]
fn ensure_id_is_unique() {
    let mut tree = EntryTree::new();
    let mut state = 0;
    let mut seen = Vec::new();
    for _ in 0..20 {
        let fresh = tree.fresh_id(&mut state, 99, 100).unwrap();
        let (place, _) = tree.create(opts("", "foo"), None, 0, &fresh);
        let id = Entry::id(&tree, &place);
        assert!(id.chars().all(|c| c.is_ascii_hexdigit()));
        assert!(!seen.contains(&id));
        seen.push(id);
    }
    let mut options = opts("", "foo");
    assert!(!tree.ensure_id(&mut options, &seen[3]));
    assert_eq!(options.id, "");
    assert!(tree.ensure_id(&mut options, "new"));
    assert_eq!(options.id, "new");
    assert!(tree.ensure_id(&mut options, &seen[3]));
    assert_eq!(options.id, "new");
    // The generator starts over: the ids in use are skipped.
    let mut again = 0;
    let next = tree.fresh_id(&mut again, 99, 100).unwrap();
    assert!(!seen.contains(&next));
    let mut again = 0;
    assert!(tree.fresh_id(&mut again, 99, 20).is_none());
    // The generator goes on behind the attempts that were made.
    assert_eq!(again, state);
    let mut other = 0;
    assert_eq!(EntryTree::new().fresh_id(&mut other, 99, 5).unwrap(), seen[0]);
    let mut by_hand = 0;
    assert_eq!(random_hex(8, &mut by_hand, 99), seen[0]);
    assert_eq!(other, by_hand);
}

#[test]
fn get_tasks_and_await() {
    let mut tree = EntryTree::new();
    let none = vec![];
    assert_eq!(tree.get_tasks(&none), 0);
    assert!(matches!(tree.await_tree(&none), AwaitStep::Done));
    let (place, _) = tree.create(opts("1", "foo"), None, 0, "");
    assert!(tree.get_tasks(&none) > 0);
    assert!(matches!(tree.await_tree(&none), AwaitStep::Task));
    tree.begin_task();
    tree.applied(&place, 5);
    assert!(matches!(tree.await_tree(&vec![5]), AwaitStep::Fibers(fibers) if fibers == vec![5]));
    tree.settle_task();
    assert!(tree.finish_init(&place, &none));
    assert_eq!(tree.get_tasks(&none), 0);
    assert_eq!(tree.get_tasks(&vec![5]), 1);
    assert!(tree.entry(&place).fiber.is_some());
    tree.tasks = 4;
    assert_eq!(tree.get_tasks(&none), 4);
}

#[test]
fn builtins_import() {
    let mut tree = EntryTree::new();
    tree.register_builtin("demo", plugin(&[]));
    assert!(tree.import("cordis:demo").is_ok());
    assert!(tree.import("demo").is_ok());
    assert_eq!(
        tree.import("cordis:missing").err().unwrap(),
        "cannot resolve builtin \"cordis:missing\""
    );
    assert_eq!(
        tree.import("no-such-plugin").err().unwrap(),
        "cannot resolve plugin \"no-such-plugin\""
    );
    tree.register_plugin("demo", plugin(&["x"]));
    assert_eq!(tree.import("demo").ok().unwrap().inject.len(), 1);
    assert_eq!(tree.import("cordis:demo").ok().unwrap().inject.len(), 0);
}

#[test]
fn full_ids_lead_back() {
    let tree = nested();
    assert_eq!(ids(&tree), vec!["outer", "outer:inner", "outer:inner:leaf", "other"]);
    for place in tree.places() {
        let id = Entry::id(&tree, &place);
        assert!(tree.locate_path(&id).ok().unwrap() == place);
        assert_eq!(tree.resolve(&id).unwrap().key, tree.entry(&place).key);
    }
    assert!(tree.resolve("leaf").is_none());
    assert!(tree.find(&Query::Key(2)).unwrap() == vec![0, 0, 0]);
    assert!(tree.find(&Query::Fiber(2)).is_none());
    assert!(tree.resolve_path("outer:leaf").is_err());
    assert!(tree.resolve_path("other:leaf").is_err());
}

#[test]
fn entry_outer_stack() {
    let tree = nested();
    let place = tree.locate_path("outer:inner:leaf").ok().unwrap();
    assert_eq!(
        Entry::get_outer_stack(&tree, &place),
        vec!["    at cordis#leaf", "    at cordis#inner", "    at cordis#outer"]
    );
}

#[test]
fn entry_disabled_chain() {
    let mut tree = nested();
    let leaf = tree.locate_path("outer:inner:leaf").ok().unwrap();
    let inner = tree.locate_path("outer:inner").ok().unwrap();
    assert!(!tree.disabled(&leaf));
    let off = PartialEntryOptions { disabled: Some(true), ..PartialEntryOptions::default() };
    let actions = tree.update_entry("outer", &off);
    assert!(actions.is_empty());
    assert!(tree.disabled(&leaf));
    // A group never counts as disabled itself.
    assert!(!tree.disabled(&inner));
    assert!(!tree.disabled(&tree.locate_path("other").ok().unwrap()));
}

#[test]
fn updates_stop_start_and_reconfigure() {
    let mut tree = EntryTree::new();
    let (place, _) = tree.create(opts("1", "foo"), None, 0, "");
    tree.applied(&place, 9);
    tree.finish_init(&place, &vec![]);
    let config = PartialEntryOptions {
        config: Some(yaml("{a: 1}")),
        ..PartialEntryOptions::default()
    };
    assert_eq!(show(&tree.update_entry("1", &config)), vec!["reconfigure 0 9"]);
    assert!(show(&tree.update_entry("1", &config)).is_empty());
    let mut isolate: Dict<IsolateValue> = Dict::new();
    isolate.insert("svc".to_string(), IsolateValue::Flag(true));
    let scope = PartialEntryOptions { isolate: Some(isolate), ..PartialEntryOptions::default() };
    assert_eq!(show(&tree.update_entry("1", &scope)), vec!["rescope 0 svc"]);
    let mut isolate: Dict<IsolateValue> = Dict::new();
    isolate.insert("svc".to_string(), IsolateValue::Label("x".to_string()));
    isolate.insert("new".to_string(), IsolateValue::Flag(true));
    let scope = PartialEntryOptions { isolate: Some(isolate), ..PartialEntryOptions::default() };
    assert_eq!(show(&tree.update_entry("1", &scope)), vec!["rescope 0 svc,new,svc"]);
    let off = PartialEntryOptions { disabled: Some(true), ..PartialEntryOptions::default() };
    assert_eq!(show(&tree.update_entry("1", &off)), vec!["dispose 9"]);
    assert_eq!(tree.tasks, 1);
    assert!(tree.entry(&place).fiber.is_none());
    let on = PartialEntryOptions { disabled: Some(false), ..PartialEntryOptions::default() };
    assert_eq!(show(&tree.update_entry("1", &on)), vec!["init 0"]);
    assert!(tree.entry(&place).init_task);
}

#[test]
fn disabled_groups_stop() {
    let mut group = Entry::new(3, group_opts("g"));
    group.fiber = Some(8);
    let off = PartialEntryOptions { disabled: Some(true), ..PartialEntryOptions::default() };
    assert!(matches!(group.update(false, &off, false, false), UpdatePlan::Stop(Some(8))));
    assert!(group.fiber.is_none());
    assert!(!group.disabled(true));
    let mut plain = Entry::new(4, opts("p", "foo"));
    let full = PartialEntryOptions::from_options(&opts("p", "foo"));
    assert!(matches!(plain.update(false, &full, true, false), UpdatePlan::Keep));
    assert!(matches!(plain.update(true, &full, true, false), UpdatePlan::Stop(None)));
}

#[test]
fn moves_shift_places() {
    let mut tree = nested();
    // `other` comes before nothing: moving `outer` away shifts it.
    let names = tree.names_for_move(&tree.locate_path("outer:inner:leaf").ok().unwrap());
    assert_eq!(names, vec!["foo"]);
    let (place, actions) = tree.move_entry("outer:inner:leaf", None).unwrap();
    assert_eq!(show(&actions), vec!["reparent 2", "write"]);
    assert!(place == vec![2]);
    assert_eq!(ids(&tree), vec!["outer", "outer:inner", "other", "leaf"]);
    assert!(tree.move_entry("leaf", None).is_none());
    // The target group stands behind the moved entry and moves up.
    let (g, _) = tree.create(group_opts("late"), None, 9, "");
    tree.attach_subgroup(&g);
    let (place, _) = tree.move_entry("outer", Some("late")).unwrap();
    assert!(place == vec![2, 0]);
    assert_eq!(ids(&tree), vec!["other", "leaf", "late", "late:outer", "late:outer:inner"]);
}

fn labels(list: &[Option<&str>]) -> Vec<Option<String>> {
    list.iter().map(|label| label.map(|l| l.to_string())).collect()
}

#[test]
fn moves_restart_where_the_realm_changes() {
    let mut tree = nested();
    tree.register_plugin("foo", plugin(&["dep", "foo"]));
    let place = tree.locate_path("other").ok().unwrap();
    tree.applied(&place, 6);
    tree.finish_init(&place, &vec![]);
    let names = tree.names_for_move(&place);
    assert_eq!(names, vec!["dep", "foo"]);
    let (place, _) = tree.move_entry("other", Some("outer")).unwrap();
    assert!(place == vec![0, 1]);
    let same = labels(&[None, Some("a")]);
    assert!(tree.settle_move(&place, &names, &same, &same).is_empty());
    assert!(tree.entry(&place).fiber == Some(6));
    let actions = tree.settle_move(&place, &names, &same, &labels(&[Some("b"), Some("a")]));
    assert_eq!(show(&actions), vec!["dispose 6", "init 3 notify dep:b"]);
    assert_eq!(tree.tasks, 1);
    let actions = tree.settle_move(&place, &names, &same, &same);
    assert_eq!(show(&actions), vec!["init 3"]);
    let actions = tree.settle_move(&place, &names, &labels(&[None, Some("x")]), &same);
    assert_eq!(show(&actions), vec!["init 3 notify foo:x+a"]);
    // Below a disabled entry the moved one stops.
    tree.applied(&place, 11);
    let off = PartialEntryOptions { disabled: Some(true), ..PartialEntryOptions::default() };
    tree.update_entry("outer", &off);
    assert_eq!(show(&tree.settle_move(&place, &names, &same, &same)), vec!["dispose 11"]);
}

#[test]
fn overlays_follow_the_options() {
    let mut options = opts("7", "foo");
    let mut isolate: Dict<IsolateValue> = Dict::new();
    isolate.insert("a".to_string(), IsolateValue::Flag(true));
    isolate.insert("b".to_string(), IsolateValue::Flag(false));
    isolate.insert("c".to_string(), IsolateValue::Label("shared".to_string()));
    options.isolate = Some(isolate);
    options.intercept = Some(yaml("{x: {y: 1}, 3: no, !t z: 2}"));
    let entry = Entry::new(0, options);
    let labels = entry.overlay_labels();
    assert_eq!(labels, vec![
        ("a".to_string(), "a#7".to_string()),
        ("c".to_string(), "c@shared".to_string()),
    ]);
    let intercepts = entry.overlay_intercepts();
    assert_eq!(intercepts.keys(), vec!["x", "z"]);
    assert_eq!(to_text(intercepts.get("x").unwrap()).unwrap(), "y: 1\n");
    assert_eq!(Entry::new(0, opts("7", "foo")).overlay_intercepts().len(), 0);
}

#[test]
fn scope_changes_are_settled() {
    let mut entry = Entry::new(0, opts("7", "foo"));
    let names: Vec<String> = vec!["s".into(), "t".into(), "s".into()];
    let old = labels(&[None, Some("t1"), None]);
    let new = labels(&[Some("s2"), None, Some("s2")]);
    let settled = entry.settle_rescope(&names, false, &old, &new);
    assert!(settled.refresh.is_none());
    assert!(settled.migrations.is_empty());
    let notices: Vec<String> = settled
        .notices
        .iter()
        .map(|notice| format!("{}:{}", notice.name, notice.labels.join("+")))
        .collect();
    assert_eq!(notices, vec!["s:+s2", "t:t1", "s:+s2"]);
    entry.fiber = Some(4);
    let settled = entry.settle_rescope(&names, true, &old, &new);
    assert!(settled.refresh.is_none());
    assert_eq!(settled.migrations.len(), 1);
    assert_eq!(settled.migrations[0].name, "s");
    assert_eq!(settled.migrations[0].from, "");
    assert_eq!(settled.migrations[0].to, "s2");
    entry.options.group = Some(true);
    let settled = entry.settle_rescope(&names, true, &old, &new);
    assert!(settled.refresh == Some(4));
    assert!(settled.migrations.is_empty());
    let settled = entry.settle_rescope(&names, false, &old, &new);
    assert!(settled.refresh.is_none());
    assert_eq!(settled.migrations.len(), 1);
}

fn env() -> EvalEnv {
    EvalEnv { platform: "linux".to_string(), ..EvalEnv::default() }
}

#[test]
fn config_expr_is_evaluated_at_apply() {
    let mut tree = EntryTree::new();
    tree.register_plugin("foo", plugin(&[]));
    let mut options = opts("1", "foo");
    options.config = Some(yaml("{os: !expr platform()}"));
    let (place, _) = tree.create(options, None, 0, "");
    let made = tree.prepare_apply(&place, &MinijinjaEvaluator, Some(&env())).ok().unwrap().unwrap();
    assert_eq!(to_text(&made.config.unwrap()).unwrap(), "os: linux\n");
    // Without an environment the config stays as it is written.
    let raw = tree.prepare_apply(&place, &MinijinjaEvaluator, None).ok().unwrap().unwrap();
    assert_eq!(to_text(&raw.config.unwrap()).unwrap(), "os: !expr platform()\n");
}

#[test]
fn group_config_stays_raw() {
    let mut tree = EntryTree::new();
    tree.register_plugin("g", Plugin { is_group: true, ..plugin(&[]) });
    let mut options = opts("1", "g");
    options.config = Some(yaml("[{id: a, name: b, config: !expr platform()}]"));
    let (place, _) = tree.create(options, None, 0, "");
    let made = tree.prepare_apply(&place, &MinijinjaEvaluator, Some(&env())).ok().unwrap().unwrap();
    assert!(to_text(&made.config.unwrap()).unwrap().contains("!expr platform()"));
}

#[test]
fn config_expr_error_fails_entry_apply() {
    let mut tree = EntryTree::new();
    tree.register_plugin("foo", plugin(&[]));
    let mut options = opts("1", "foo");
    options.config = Some(yaml("{a: !expr nope()}"));
    let (place, _) = tree.create(options, None, 0, "");
    let error = tree.prepare_apply(&place, &MinijinjaEvaluator, Some(&env())).err().unwrap();
    assert!(error.starts_with("config evaluation failed: failed to evaluate `nope()`: "), "{error}");
    let (config, logged) = tree.resolve_applied_config(&place, &MinijinjaEvaluator, Some(&env()));
    assert_eq!(to_text(&config.unwrap()).unwrap(), "a: !expr nope()\n");
    assert_eq!(logged, Some(error));
    let (missing, _) = tree.create(opts("2", "gone"), None, 0, "");
    assert_eq!(
        tree.prepare_apply(&missing, &MinijinjaEvaluator, None).err().unwrap(),
        "cannot resolve plugin \"gone\""
    );
    let off = EntryOptions { disabled: Some(true), ..opts("3", "gone") };
    let (place, _) = tree.create(off, None, 0, "");
    assert!(tree.prepare_apply(&place, &MinijinjaEvaluator, None).ok().unwrap().is_none());
}

#[test]
fn initialization_is_marked_once() {
    let mut tree = EntryTree::new();
    let (place, _) = tree.create(opts("1", "foo"), None, 0, "");
    assert!(!tree.init(&place));
    assert!(!tree.finish_init(&place, &vec![]));
    assert!(tree.init(&place));
    assert!(!tree.init(&place));
    assert_eq!(tree.reload_outcome(&place, false).err().unwrap(), "entry 1 failed to reload");
    tree.applied(&place, 3);
    assert!(tree.reload_outcome(&place, false).is_ok());
    assert!(tree.reload_outcome(&place, true).is_err());
    assert!(tree.detach_and_clear_fiber(&place) == Some(3));
    assert!(tree.detach_and_clear_fiber(&place).is_none());
}

#[test]
fn reload_finds_the_bound_entries() {
    let tree = nested();
    assert_eq!(tree.bound_to("foo"), vec![2, 3]);
    assert_eq!(tree.bound_to("@cordisjs/plugin-group"), vec![0, 1]);
    assert!(tree.bound_to("x").is_empty());
}
