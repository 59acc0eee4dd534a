use cordis::graph::{analyze_changes, Artifact, Classification, DependencyGraph};
use cordis::hmr::{
    change_event, debounce_window, hmr_plugin, is_ignored, validate_config, validate_message,
    FileWatcher, HmrConfig, HmrService, Watch,
};
use cordis::glob::{glob_covers, match_segment};
use cordis::reload::{Phase, Reload, ReloadAction, ReloadReport};

fn artifact(name: &str, deps: &[&str]) -> Artifact {
    Artifact { name: name.to_string(), deps: strings(deps) }
}

fn strings(items: &[&str]) -> Vec<String> {
    items.iter().map(|item| item.to_string()).collect()
}

fn accepted(result: &Classification) -> Vec<String> {
    let mut names = result.accepted.list().clone();
    names.sort();
    names
}

#[test]
fn validation_messages_are_localized() {
    assert_eq!(
        validate_message("en-US", "debounce"),
        "hmr.config.debounce: must be a positive integer"
    );
    assert_eq!(validate_message("zh-CN", "debounce"), "hmr.config.debounce: 必须为正整数");
    assert_eq!(validate_message("en-US", "root"), "hmr.config.root: must be a non-empty array");
}

#[test]
fn other_messages() {
    assert_eq!(validate_message("zh-CN", "root"), "hmr.config.root: 不能为空数组");
    assert_eq!(validate_message("zh-CN", "base"), "hmr.config.base: 配置无效");
    assert_eq!(validate_message("en-US", "base"), "hmr.config.base: invalid value");
    assert_eq!(validate_message("fr-FR", "debounce"), "hmr.config.debounce: invalid value");
}

#[test]
fn config_defaults_are_stable() {
    let config = HmrConfig::default();
    assert_eq!(config.root, vec![".".to_string()]);
    assert_eq!(config.debounce, 100);
    assert_eq!(
        config.ignored,
        vec![
            "**/node_modules".to_string(),
            "**/.*".to_string(),
            "cache".to_string(),
            "data".to_string(),
        ]
    );
    assert!(validate_config(&config).is_ok());
}

#[test]
fn config_defaults_and_validation() {
    let config = HmrConfig::default();
    assert_eq!(config.root, vec![".".to_string()]);
    assert_eq!(config.debounce, 100);
    assert_eq!(
        config.ignored,
        vec![
            "**/node_modules".to_string(),
            "**/.*".to_string(),
            "cache".to_string(),
            "data".to_string(),
        ]
    );
    assert!(validate_config(&config).is_ok());

    let mut invalid = config;
    invalid.debounce = 0;
    assert!(validate_config(&invalid).is_err());
    assert_eq!(debounce_window(&invalid), 1);
    assert_eq!(
        validate_config(&invalid).err().unwrap(),
        "hmr.config.debounce: must be a positive integer"
    );
    let service = HmrService { config: HmrConfig::default() };
    assert_eq!(debounce_window(&service.config), 100);
}

#[test]
fn shared_dependency_classification() {
    let mut graph = DependencyGraph::default();
    graph.add(artifact("dep", &[]));
    graph.add(artifact("plugin-a", &["dep"]));
    graph.add(artifact("plugin-b", &["dep"]));
    graph.add(artifact("unrelated", &[]));

    let result = analyze_changes(&graph, &strings(&["dep"]), &vec![]);
    assert!(result.accepted.contains("dep"));
    assert!(result.accepted.contains("plugin-a"));
    assert!(result.accepted.contains("plugin-b"));
    assert!(!result.accepted.contains("unrelated"));
    assert!(result.declined.contains("unrelated"));

    let result = analyze_changes(&graph, &strings(&["unrelated"]), &vec![]);
    assert_eq!(accepted(&result), strings(&["unrelated"]));
}

#[test]
fn declined_dependency_cascades() {
    let mut graph = DependencyGraph::default();
    graph.add(artifact("framework", &[]));
    graph.add(artifact("plugin-x", &["framework"]));
    graph.add(artifact("plugin-y", &["plugin-x"]));

    let result = analyze_changes(&graph, &vec![], &strings(&["framework"]));
    assert!(result.declined.contains("framework"));
    assert!(result.declined.contains("plugin-x"));
    assert!(result.declined.contains("plugin-y"));
    assert_eq!(result.accepted.len(), 0);
}

#[test]
fn accepted_branch_wins() {
    let mut graph = DependencyGraph::default();
    graph.add(artifact("shared", &[]));
    graph.add(artifact("plugin", &["shared", "missing"]));

    let result = analyze_changes(&graph, &strings(&["shared"]), &vec![]);
    assert!(result.accepted.contains("shared"));
    assert!(result.accepted.contains("plugin"));
}

#[test]
fn cycles_end_and_are_declined_unless_reached() {
    let mut graph = DependencyGraph::new();
    graph.add(artifact("a", &["b"]));
    graph.add(artifact("b", &["a", "c"]));
    graph.add(artifact("c", &["unknown"]));
    let result = analyze_changes(&graph, &vec![], &vec![]);
    assert_eq!(result.accepted.len(), 0);
    for name in ["a", "b", "c", "unknown"] {
        assert!(result.declined.contains(name), "{name}");
    }
    let result = analyze_changes(&graph, &strings(&["c"]), &vec![]);
    assert_eq!(accepted(&result), strings(&["a", "b", "c"]));
    // The framework leads nowhere, even where it changed.
    let result = analyze_changes(&graph, &strings(&["c"]), &strings(&["c"]));
    assert_eq!(accepted(&result), strings(&["c"]));
    assert!(result.declined.contains("a") && result.declined.contains("c"));
}

#[test]
fn dependents_are_indexed() {
    let mut graph = DependencyGraph::new();
    assert!(!graph.has_dependent("a", "b"));
    graph.add(artifact("b", &["a", "c", "a"]));
    graph.add(artifact("d", &["a"]));
    assert!(graph.has_dependent("a", "b") && graph.has_dependent("a", "d"));
    assert!(graph.has_dependent("c", "b") && !graph.has_dependent("c", "d"));
    assert!(!graph.has_dependent("b", "a"));
}

#[test]
fn ignored_paths() {
    let patterns = HmrConfig::default().ignored;
    let base = strings(&["/", "work"]);
    let ignores = |segments: &[&str]| is_ignored(&patterns, &base, &strings(segments));
    assert!(ignores(&["/", "work", "node_modules", "x.js"]));
    assert!(ignores(&["/", "work", "src", ".git"]));
    assert!(ignores(&["/", "work", "cache", "x"]));
    assert!(!ignores(&["/", "work", "src", "x.rs"]));
    assert!(!ignores(&["/", "work"]));
    // Below the base only the rest of the path counts.
    assert!(!is_ignored(&strings(&["work"]), &base, &strings(&["/", "work", "a"])));
    assert!(is_ignored(&strings(&["work"]), &base, &strings(&["/", "other", "work"])));
}

#[test]
fn ignored_globs() {
    let base = strings(&["/", "app"]);
    let ignores = |pattern: &str, segments: &[&str]| {
        let mut path = base.clone();
        path.extend(strings(segments));
        is_ignored(&strings(&[pattern]), &base, &path)
    };
    assert!(ignores("*.log", &["a.log"]));
    assert!(ignores("*.log", &["src", "a.log"]));
    assert!(!ignores("*.log", &["a.logs"]));
    assert!(ignores("a?c", &["abc"]));
    assert!(!ignores("a?c", &["ac"]));
    // A pattern with a slash starts at the base.
    assert!(ignores("src/*.tmp", &["src", "x.tmp"]));
    assert!(!ignores("src/*.tmp", &["lib", "src", "x.tmp"]));
    assert!(!ignores("src/*.tmp", &["src", "y", "x.tmp"]));
    assert!(ignores("src/**/*.tmp", &["src", "x.tmp"]));
    assert!(ignores("src/**/*.tmp", &["src", "y", "z", "x.tmp"]));
    // What lies below a match is covered too.
    assert!(ignores("build/out", &["build", "out", "a"]));
    assert!(!ignores("build/out", &["build", "a"]));
    assert!(ignores("**", &["a"]));
}

#[test]
fn glob_segments_match() {
    assert!(match_segment("*", ""));
    assert!(match_segment("a*b*c", "axxbyyc"));
    assert!(!match_segment("a*b*c", "axxbyy"));
    assert!(match_segment("", ""));
    assert!(!match_segment("", "a"));
    assert!(!match_segment("?", ""));
    assert!(glob_covers("x", &strings(&["a", "x", "b"])));
    assert!(!glob_covers("x", &strings(&["a", "xy"])));
}

#[test]
fn changes_are_debounced_and_routed() {
    let mut watch = Watch::new();
    assert!(!watch.change("a".to_string(), true));
    assert!(watch.elapsed().is_none());
    assert!(watch.change("a".to_string(), false));
    assert_eq!(watch.elapsed(), Some("a".to_string()));
    assert!(watch.elapsed().is_none());
    assert_eq!(change_event(false), Some("hmr/change".to_string()));
    assert_eq!(change_event(true), None);
    let plugin = hmr_plugin(3);
    assert_eq!(plugin.name.as_deref(), Some("hmr"));
    assert_eq!(plugin.inject, vec!["loader".to_string()]);
    assert!(!plugin.is_group);
    assert_eq!(plugin.apply, 3);
}

#[test]
fn watchers_know_what_they_watch() {
    let paths = strings(&["/a", "/b"]);
    let (watcher, warnings) = FileWatcher::start(&paths, &vec![None, Some("gone".to_string())]);
    assert_eq!(warnings, strings(&["cannot watch /b: gone"]));
    assert_eq!(watcher.stop(), strings(&["/a"]));
    let (watcher, error) = FileWatcher::failed("limit");
    assert_eq!(error, "cannot start watcher: limit");
    assert!(watcher.stop().is_empty());
}

fn drive(entries: usize, has_previous: bool, outcomes: &[bool]) -> (Reload, Vec<ReloadAction>) {
    let mut reload = Reload::start(entries, has_previous);
    let mut actions = vec![];
    for ok in outcomes {
        actions.push(reload.action());
        reload = reload.advance(*ok);
    }
    (reload, actions)
}

#[test]
fn reload_rolls_back_on_failure() {
    let (reload, actions) = drive(2, true, &[true, true, false, true, true, false]);
    assert!(reload.phase == Phase::RolledBack);
    assert!(reload.action() == ReloadAction::Done);
    assert!(actions == [
        ReloadAction::Register,
        ReloadAction::Apply(0),
        ReloadAction::Apply(1),
        ReloadAction::Restore,
        ReloadAction::Apply(0),
        ReloadAction::Apply(1),
    ]);
    let (reload, actions) = drive(1, false, &[true, false, true]);
    assert!(reload.phase == Phase::RolledBack);
    assert!(actions[2] == ReloadAction::Apply(0));
}

#[test]
fn reload_reports() {
    let mut report = ReloadReport::default();
    report.note("a".to_string(), &drive(2, true, &[true, true, true]).0);
    report.note("b".to_string(), &drive(2, true, &[false]).0);
    report.note("c".to_string(), &drive(0, false, &[false]).0);
    report.note("d".to_string(), &drive(2, true, &[true]).0);
    report.note("e".to_string(), &drive(0, false, &[true]).0);
    assert_eq!(report.reloaded, strings(&["a", "e"]));
    assert_eq!(report.rolled_back, strings(&["b", "c"]));
}

#[test]
fn reload_warnings() {
    let reload = Reload::start(1, true);
    assert_eq!(
        reload.failure_warning("p", "bad").as_deref(),
        Some("hmr: reload p failed to register: bad")
    );
    let reload = reload.advance(true);
    assert_eq!(reload.failure_warning("p", "bad").as_deref(), Some("hmr: reload p failed: bad"));
    let reload = reload.advance(false);
    assert_eq!(reload.failure_warning("p", "bad"), None);
    assert_eq!(reload.end_warning("p"), None);
    let reload = reload.advance(true).advance(true);
    assert_eq!(reload.end_warning("p").as_deref(), Some("hmr: reload p failed; rolled back"));
    assert_eq!(Reload::start(1, true).advance(false).end_warning("p"), None);
}
