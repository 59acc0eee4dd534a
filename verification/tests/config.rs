use cordis::codec::{decode_list, decode_options, encode_list, encode_options, is_tagless};
use cordis::config::{
    check_config, config_format, fault_message, parse_config, serialize_config, temporary_extension,
    to_sorted_value, wrap_notation, write_fault_message, ConfigFault, ConfigFormat, WriteFault,
};
use cordis::dict::Dict;
use cordis::options::{EntryOptions, IsolateValue, PartialEntryOptions};
use cordis::value::{Mapping, Numeric, Tag, TaggedValue, Yaml};
use cordis::yaml::{from_yaml, parse_json, to_debug, to_json_text, to_text, to_yaml};

fn yaml(text: &str) -> Yaml {
    from_yaml(serde_yaml_ng::from_str(text).unwrap())
}

fn sample() -> EntryOptions {
    EntryOptions {
        id: "1".to_string(),
        name: "foo".to_string(),
        config: Some(Yaml::Mapping(Mapping::new())),
        ..EntryOptions::default()
    }
}

#[test]
fn sorted_yaml_key_order() {
    let options = EntryOptions { group: Some(true), disabled: Some(false), ..sample() };
    let value = to_yaml(&to_sorted_value(&options));
    let mapping = value.as_mapping().unwrap();
    let keys: Vec<&str> = mapping.keys().filter_map(|key| key.as_str()).collect();
    assert_eq!(keys, vec!["id", "name", "disabled", "group", "config"]);
}

#[test]
fn expr_survives_round_trip() {
    let options = EntryOptions {
        config: Some(yaml("greeting: !expr env(\"DEMO_GREETING\") or \"Hello\"\n")),
        ..sample()
    };
    let dumped = serialize_config(&vec![options]).unwrap();
    assert!(dumped.contains("!expr"), "{dumped}");
    assert!(dumped.contains("env(\"DEMO_GREETING\")"), "{dumped}");
}

#[test]
fn extra_keys_are_sorted_among_the_fields() {
    let mut options = EntryOptions { disabled: Some(true), ..sample() };
    options.inject = Some(vec!["b".to_string(), "a".to_string()]);
    let mut isolate: Dict<IsolateValue> = Dict::new();
    isolate.insert("svc".to_string(), IsolateValue::Label("shared".to_string()));
    isolate.insert("own".to_string(), IsolateValue::Flag(true));
    options.isolate = Some(isolate);
    options.intercept = Some(yaml("{a: 1}"));
    options.extra.insert("zeta".to_string(), Yaml::Null);
    options.extra.insert("alpha".to_string(), Yaml::Text("x".to_string()));
    options.extra.insert("f".to_string(), Yaml::Bool(true));
    assert_eq!(
        serialize_config(&vec![options]).unwrap(),
        "- id: '1'\n  name: foo\n  alpha: x\n  disabled: true\n  f: true\n  inject:\n  - b\n  - a\n  intercept:\n    a: 1\n  isolate:\n    svc: shared\n    own: true\n  zeta: null\n  config: {}\n"
    );
}

#[test]
fn extra_keys_named_like_fields_replace_them() {
    let mut options = sample();
    options.extra.insert("id".to_string(), Yaml::Text("other".to_string()));
    options.extra.insert("config".to_string(), Yaml::Text("lost".to_string()));
    options.extra.insert("m".to_string(), Yaml::Bool(false));
    let value = to_yaml(&to_sorted_value(&options));
    let mapping = value.as_mapping().unwrap();
    let keys: Vec<&str> = mapping.keys().filter_map(|key| key.as_str()).collect();
    assert_eq!(keys, vec!["id", "name", "config", "m"]);
    assert_eq!(value["id"].as_str(), Some("other"));
    assert!(value["config"].is_mapping());
}

#[test]
fn formats_follow_the_extension() {
    assert!(matches!(config_format("json"), Ok(ConfigFormat::Json)));
    assert!(matches!(config_format("yaml"), Ok(ConfigFormat::Yaml)));
    assert!(matches!(config_format("yml"), Ok(ConfigFormat::Yaml)));
    assert_eq!(config_format("txt").err().unwrap(), "extension not supported: txt");
}

#[test]
fn expressions_are_rejected_in_intercepts() {
    let good = EntryOptions { config: Some(yaml("!expr x()")), ..sample() };
    assert!(check_config(&vec![good.clone()], "\"a.yml\"").is_ok());
    let bad = EntryOptions { intercept: Some(yaml("a: !expr x()")), ..sample() };
    assert_eq!(
        check_config(&vec![good, bad], "\"a.yml\"").err().unwrap(),
        "invalid config in \"a.yml\": failed to evaluate `x()\n`: !expr is not allowed in `intercept`"
    );
}

#[test]
fn parses_yaml_and_json_by_extension() {
    let format = config_format("yml").ok().unwrap();
    let parsed = parse_config(format, "\"cordis.yml\"", Ok(vec![sample()])).ok().unwrap();
    assert_eq!(parsed[0].name, "foo");
    assert_eq!(
        parse_config(format, "\"a.yml\"", Err("bad".to_string())).err().unwrap(),
        "invalid yaml in \"a.yml\": bad"
    );
    assert_eq!(
        parse_config(ConfigFormat::Json, "\"a.json\"", Err("bad".to_string())).err().unwrap(),
        "invalid json in \"a.json\": bad"
    );
    let bad = EntryOptions { intercept: Some(yaml("!expr x")), ..sample() };
    assert!(parse_config(format, "p", Ok(vec![bad])).is_err());
}

#[test]
fn faults_have_messages() {
    assert_eq!(fault_message(ConfigFault::Read, "p", "e"), "cannot read config file p: e");
    assert_eq!(fault_message(ConfigFault::Json, "p", "e"), "invalid json in p: e");
    assert_eq!(fault_message(ConfigFault::Yaml, "p", "e"), "invalid yaml in p: e");
    assert_eq!(fault_message(ConfigFault::Content, "p", "e"), "invalid config in p: e");
    assert_eq!(write_fault_message(WriteFault::Readonly, "e"), "cannot overwrite readonly config");
    assert_eq!(write_fault_message(WriteFault::Write, "e"), "cannot write config file: e");
    assert_eq!(write_fault_message(WriteFault::Rename, "e"), "cannot rename config file: e");
    assert_eq!(temporary_extension("yml"), "ymltmp");
    assert_eq!(wrap_notation(Err("e".to_string())), Err("cannot serialize config: e".to_string()));
    assert_eq!(wrap_notation(Ok("t".to_string())), Ok("t".to_string()));
}

#[test]
fn written_options_are_read_back() {
    let mut options = EntryOptions { group: Some(false), disabled: Some(true), ..sample() };
    options.config = Some(yaml("{a: [1, -2, 1.5, x], b: !expr y()}"));
    options.inject = Some(vec!["dep".to_string()]);
    let mut isolate: Dict<IsolateValue> = Dict::new();
    isolate.insert("svc".to_string(), IsolateValue::Flag(false));
    options.isolate = Some(isolate);
    options.extra.insert("custom".to_string(), Yaml::Text("x".to_string()));
    for value in [to_sorted_value(&options), encode_options(&options)] {
        let back = decode_options(&value).unwrap();
        assert_eq!(back.id, "1");
        assert_eq!(back.name, "foo");
        assert!(back.config.unwrap().same_as(options.config.as_ref().unwrap()));
        assert_eq!(back.group, Some(false));
        assert_eq!(back.disabled, Some(true));
        assert_eq!(back.inject, Some(vec!["dep".to_string()]));
        let isolate = back.isolate.unwrap();
        assert!(matches!(isolate.get("svc"), Some(IsolateValue::Flag(false))));
        assert!(back.intercept.is_none());
        assert!(matches!(back.extra.get("custom"), Some(Yaml::Text(t)) if t == "x"));
        assert_eq!(back.extra.len(), 1);
    }
}

#[test]
fn lists_of_options_go_both_ways() {
    let list = vec![sample(), EntryOptions { id: "2".to_string(), ..sample() }];
    let value = encode_list(&list);
    assert_eq!(
        to_text(&value).unwrap(),
        "- id: '1'\n  name: foo\n  config: {}\n- id: '2'\n  name: foo\n  config: {}\n"
    );
    let back = decode_list(&value).unwrap();
    assert_eq!(back.len(), 2);
    assert_eq!(back[1].id, "2");
    assert_eq!(decode_list(&Yaml::Null).unwrap().len(), 0);
    assert!(decode_list(&yaml("{a: 1}")).is_none());
    assert!(decode_list(&yaml("[{id: a, name: b}, 1]")).is_none());
}

#[test]
fn options_that_do_not_fit_are_refused() {
    assert!(decode_options(&yaml("{id: a, name: b}")).is_some());
    assert!(decode_options(&yaml("!tag {id: !x a, name: b}")).is_some());
    assert!(decode_options(&yaml("{id: a}")).is_none());
    assert!(decode_options(&yaml("{name: a}")).is_none());
    assert!(decode_options(&yaml("{id: 1, name: b}")).is_none());
    assert!(decode_options(&yaml("{id: a, name: b, 3: c}")).is_none());
    assert!(decode_options(&yaml("{id: a, name: b, group: yes please}")).is_none());
    assert!(decode_options(&yaml("{id: a, name: b, inject: [1]}")).is_none());
    assert!(decode_options(&yaml("{id: a, name: b, isolate: {s: 1}}")).is_none());
    assert!(decode_options(&yaml("{id: a, name: b, isolate: {s: !t x}}")).is_none());
    assert!(decode_options(&yaml("{id: a, name: b, extra: !expr x()}")).is_none());
    assert!(decode_options(&yaml("{id: a, name: b, config: !expr x()}")).is_some());
    let nulls = decode_options(&yaml(
        "{id: a, name: b, config: null, group: null, disabled: null, inject: null, isolate: null, intercept: null, more: null}",
    ))
    .unwrap();
    assert!(nulls.config.is_none() && nulls.group.is_none() && nulls.disabled.is_none());
    assert!(nulls.inject.is_none() && nulls.isolate.is_none() && nulls.intercept.is_none());
    assert_eq!(nulls.extra.len(), 1);
    let tagged = decode_options(&yaml("{id: a, name: b, inject: !t null, isolate: !t null}"));
    let tagged = tagged.unwrap();
    assert_eq!(tagged.inject, Some(vec![]));
    assert_eq!(tagged.isolate.unwrap().len(), 0);
}

#[test]
fn the_bridge_keeps_values() {
    let text = "a: 18446744073709551615\nb: -9223372036854775808\nc: 1e100\nd: .nan\ne: [null, true, !t {x: 1}]\nf: 'y'\n";
    let outside: serde_yaml_ng::Value = serde_yaml_ng::from_str(text).unwrap();
    let inside = from_yaml(outside.clone());
    assert_eq!(to_yaml(&inside), outside);
    assert!(inside.same_as(&from_yaml(outside.clone())));
    assert_eq!(to_text(&inside).unwrap(), serde_yaml_ng::to_string(&outside).unwrap());
    assert_eq!(to_debug(&inside), format!("{outside:?}"));
}

#[test]
fn odd_tags_cross_the_bridge() {
    for name in ["!a", "a", "!!a", "!", "!!"] {
        let outside = serde_yaml_ng::Value::Tagged(Box::new(serde_yaml_ng::value::TaggedValue {
            tag: serde_yaml_ng::value::Tag::new(name),
            value: serde_yaml_ng::Value::Null,
        }));
        assert_eq!(to_yaml(&from_yaml(outside.clone())), outside, "{name}");
    }
    assert_eq!(Tag::new("!expr").name().as_str(), "expr");
    assert_eq!(Tag::new("expr").name().as_str(), "expr");
}

#[test]
fn equality_ignores_the_order_of_mappings() {
    assert!(yaml("{a: 1, b: [2]}").same_as(&yaml("{b: [2], a: 1}")));
    assert!(!yaml("{a: 1}").same_as(&yaml("{a: 1, b: 2}")));
    assert!(!yaml("{a: 1, b: 1}").same_as(&yaml("{a: 1, c: 1}")));
    assert!(!yaml("[1, 2]").same_as(&yaml("[2, 1]")));
    assert!(!yaml("1").same_as(&yaml("1.0")));
    assert!(yaml("0.0").same_as(&yaml("-0.0")));
    assert!(yaml(".nan").same_as(&yaml(".nan")));
    assert!(!yaml("!a 1").same_as(&yaml("!b 1")));
    assert!(Yaml::Numeric(Numeric::PosInt(5)).same_as(&Yaml::Numeric(Numeric::NegInt(5))));
    let tagged = Yaml::Tagged(Box::new(TaggedValue { tag: Tag::new("!a"), value: Yaml::Null }));
    assert!(tagged.same_as(&yaml("!a null")));
}

#[test]
fn mappings_replace_in_place() {
    let mut mapping = Mapping::new();
    mapping.insert(Yaml::Text("a".to_string()), Yaml::Bool(true));
    mapping.insert(Yaml::Text("b".to_string()), Yaml::Null);
    mapping.insert(Yaml::Text("a".to_string()), Yaml::Bool(false));
    assert_eq!(mapping.len(), 2);
    assert!(matches!(mapping.get("a"), Some(Yaml::Bool(false))));
    assert!(matches!(mapping.key_at(0), Yaml::Text(t) if t == "a"));
    assert!(mapping.get("c").is_none());
}

#[test]
fn json_goes_both_ways() {
    assert_eq!(to_json_text(&yaml("{a: [1, x, null], b: 1.5}")).unwrap(), "{\"a\":[1,\"x\",null],\"b\":1.5}");
    assert!(parse_json("{\"a\": [1, \"x\"]}").unwrap().same_as(&yaml("{a: [1, x]}")));
    assert!(parse_json("{").is_none());
}

#[test]
fn tags_are_found_anywhere() {
    assert!(is_tagless(&yaml("{a: [1, {b: c}]}")));
    assert!(!is_tagless(&yaml("{a: [1, {b: !t c}]}")));
    assert!(!is_tagless(&yaml("{? !t a : 1}")));
}

#[test]
fn updates_of_options() {
    let mut options = EntryOptions { disabled: Some(true), ..sample() };
    let empty = PartialEntryOptions::default();
    empty.apply_to(&mut options);
    assert_eq!(options.disabled, Some(true));
    assert!(options.config.is_some());
    let update = PartialEntryOptions {
        name: Some("bar".to_string()),
        group: Some(true),
        ..PartialEntryOptions::default()
    };
    let before = options.clone();
    update.apply_to(&mut options);
    assert_eq!(options.name, "bar");
    assert_eq!(options.disabled, Some(true));
    assert_eq!(options.diff(&before), vec!["name".to_string(), "group".to_string()]);
    update.apply_full(&mut options);
    assert_eq!(options.id, "1");
    assert_eq!(options.disabled, None);
    assert!(options.config.is_none());
    assert_eq!(options.diff(&before), vec!["config", "disabled", "name", "group"]);
    let full = PartialEntryOptions::from_options(&before);
    full.apply_full(&mut options);
    assert!(options.diff(&before).is_empty());
    assert_eq!(full.into_options("x".to_string(), "y".to_string()).id, "1");
    let made = PartialEntryOptions::default().into_options("x".to_string(), "y".to_string());
    assert_eq!((made.id.as_str(), made.name.as_str()), ("x", "y"));
}

#[test]
fn differences_are_listed_in_order() {
    let before = sample();
    let mut after = sample();
    after.config = None;
    after.disabled = Some(false);
    after.inject = Some(vec![]);
    after.name = "bar".to_string();
    after.isolate = Some(Dict::new());
    after.intercept = Some(Yaml::Null);
    after.group = Some(true);
    assert_eq!(
        after.diff(&before),
        vec!["config", "disabled", "inject", "name", "isolate", "intercept", "group"]
    );
    let mut after = sample();
    after.id = "2".to_string();
    after.extra.insert("k".to_string(), Yaml::Null);
    assert_eq!(after.diff(&before), vec!["id", "extra"]);
    after.id = "1".to_string();
    let mut other = after.clone();
    other.extra.insert("k".to_string(), Yaml::Bool(true));
    assert_eq!(other.diff(&after), vec!["extra"]);
    assert!(after.clone().diff(&after).is_empty());
    let grouped = EntryOptions { group: Some(true), ..sample() };
    assert_eq!(grouped.diff(&before), vec!["group"]);
}

#[test]
fn numbers_count_by_what_they_are() {
    let five = Yaml::Numeric(Numeric::Float(serde_yaml_ng::Number::from(5)));
    assert!(five.same_as(&yaml("5")));
    assert!(!five.same_as(&yaml("5.0")));
    assert!(matches!(from_yaml(to_yaml(&five)), Yaml::Numeric(Numeric::PosInt(5))));
    let minus = Yaml::Numeric(Numeric::Float(serde_yaml_ng::Number::from(-5)));
    assert!(minus.same_as(&Yaml::Numeric(Numeric::NegInt(-5))));
    assert!(matches!(from_yaml(to_yaml(&minus)), Yaml::Numeric(Numeric::NegInt(-5))));
    assert!(yaml("1.5").same_as(&yaml("1.5")));
    assert!(yaml("0.0").same_as(&yaml("-0.0")));
    assert!(yaml(".nan").same_as(&yaml(".nan")));
    assert!(matches!(yaml("2.0"), Yaml::Numeric(Numeric::Float(_))));
    assert_eq!(to_text(&Yaml::Numeric(Numeric::NegInt(7))).unwrap(), "7\n");
}
