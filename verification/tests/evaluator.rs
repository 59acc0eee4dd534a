use cordis::dict::Dict;
use cordis::evaluator::{
    evaluate_config, reject_exprs, wrap_outcome, ConfigEvaluator, EvalEnv, MinijinjaEvaluator,
};
use cordis::expression::{is_admitted, tokenize, Lexeme, MAX_NESTING, MAX_TOKENS};
use cordis::value::Yaml;
use cordis::yaml::{from_yaml, to_text, to_yaml};

fn env(entries: &[(&str, &str)]) -> EvalEnv {
    let mut env_vars: Dict<String> = Dict::new();
    for (key, value) in entries {
        env_vars.insert(key.to_string(), value.to_string());
    }
    EvalEnv {
        platform: "darwin".to_string(),
        base_url: "https://example.com".to_string(),
        env_vars,
    }
}

fn yaml(text: &str) -> Yaml {
    from_yaml(serde_yaml_ng::from_str(text).unwrap())
}

fn run(expr: &str, env: &EvalEnv) -> serde_yaml_ng::Value {
    match MinijinjaEvaluator.evaluate(expr, env) {
        Ok(value) => to_yaml(&value),
        Err(error) => panic!("{}", error.to_text()),
    }
}

fn eval_str(expr: &str, env: &EvalEnv) -> String {
    let value = run(expr, env);
    match value.as_str() {
        Some(text) => text.to_string(),
        None => serde_yaml_ng::to_string(&value).unwrap().trim().to_string(),
    }
}

#[test]
fn env_var_present_and_missing() {
    let with_var = env(&[("DEMO_GREETING", "hello")]);
    assert_eq!(eval_str("env(\"DEMO_GREETING\") or \"Hello\"", &with_var), "hello");
    let without_var = env(&[]);
    assert_eq!(eval_str("env(\"DEMO_GREETING\") or \"Hello\"", &without_var), "Hello");
}

#[test]
fn platform_and_base_url_functions() {
    let current = env(&[]);
    assert_eq!(eval_str("platform() == \"win32\"", &current), "false");
    let mut win_env = env(&[]);
    win_env.platform = "win32".to_string();
    assert_eq!(eval_str("platform() == \"win32\"", &win_env), "true");
    assert_eq!(eval_str("base_url() ~ \"/data\"", &current), "https://example.com/data");
}

#[test]
fn evaluate_config_recursively() {
    let value = yaml(
        r#"
greeting: !expr env("DEMO_GREETING") or "Hello"
port: !expr env("PORT")|int
dir: !expr base_url() ~ "/data"
"#,
    );
    let env = env(&[("DEMO_GREETING", "hi"), ("PORT", "8080")]);
    let evaluated = match evaluate_config(&value, &MinijinjaEvaluator, &env) {
        Ok(value) => to_yaml(&value),
        Err(error) => panic!("{}", error.to_text()),
    };
    assert_eq!(evaluated["greeting"].as_str(), Some("hi"));
    assert_eq!(evaluated["port"].as_i64(), Some(8080));
    assert_eq!(evaluated["dir"].as_str(), Some("https://example.com/data"));
}

#[test]
fn reject_exprs_in_forbidden_fields() {
    let value = yaml("\nid: !expr env(\"ID\")\n");
    let error = reject_exprs(&value, "id").err().unwrap();
    assert!(error.message.contains("!expr is not allowed in `id`"), "{}", error.to_text());
    assert_eq!(error.message, "!expr is not allowed in `id`");
    assert_eq!(error.expr, "env(\"ID\")\n");

    let value = yaml("name: plain");
    assert!(reject_exprs(&value, "name").is_ok());
}

#[test]
fn expr_round_trips_through_yaml() {
    let value = yaml("greeting: !expr env(\"DEMO_GREETING\") or \"Hello\"\n");
    let dumped = to_text(&value).unwrap();
    assert!(dumped.contains("!expr"), "{dumped}");
    assert!(dumped.contains("env(\"DEMO_GREETING\")"), "{dumped}");
}

#[test]
fn evaluation_errors_have_context() {
    let error = MinijinjaEvaluator
        .evaluate("env(\"UNKNOWN\") |nosuchfilter", &env(&[]))
        .err()
        .unwrap();
    assert!(error.message.contains("nosuchfilter"), "{}", error.to_text());
    assert_eq!(error.expr, "env(\"UNKNOWN\") |nosuchfilter");

    let error = MinijinjaEvaluator.evaluate("unknown_function()", &env(&[])).err().unwrap();
    assert!(error.message.contains("unknown_function"), "{}", error.to_text());
}

#[test]
fn int_filter_and_bool_coercion() {
    assert_eq!(run("env(\"PORT\")|int", &env(&[("PORT", "80")])).as_i64(), Some(80));
    assert_eq!(run("\"\" or \"fallback\"", &env(&[])).as_str(), Some("fallback"));
}

#[test]
fn expression_that_is_no_string_is_an_error() {
    let value = yaml("a: !expr [1, 2]");
    let error = evaluate_config(&value, &MinijinjaEvaluator, &env(&[])).err().unwrap();
    assert_eq!(error.message, "!expr value must be a string");
    assert!(error.expr.contains("!expr"), "{}", error.expr);
    assert_eq!(
        error.to_text(),
        format!("failed to evaluate `{}`: !expr value must be a string", error.expr)
    );
}

#[test]
fn the_first_error_ends_the_evaluation() {
    let value = yaml("- 1\n- !expr broken(\n- !expr [1]\n");
    let error = evaluate_config(&value, &MinijinjaEvaluator, &env(&[])).err().unwrap();
    assert_eq!(error.expr, "broken(");
}

#[test]
fn values_without_expressions_stay() {
    let text = "a: 1\nb: [x, !other y, 1.5]\nc:\n  d: null\n";
    let value = yaml(text);
    assert!(reject_exprs(&value, "config").is_ok());
    let evaluated = evaluate_config(&value, &MinijinjaEvaluator, &env(&[]));
    assert!(evaluated.ok().unwrap().same_as(&value));
}

#[test]
fn expressions_below_other_tags_are_evaluated() {
    let value = yaml("x: !other {y: !expr platform()}");
    let evaluated = evaluate_config(&value, &MinijinjaEvaluator, &env(&[])).ok().unwrap();
    assert_eq!(to_text(&evaluated).unwrap(), "x: !other\n  y: darwin\n");
}

#[test]
fn outcomes_carry_the_expression() {
    let error = wrap_outcome("1 +", Err("syntax".to_string())).err().unwrap();
    assert_eq!(error.expr, "1 +");
    assert_eq!(error.message, "syntax");
    assert_eq!(error.to_text(), "failed to evaluate `1 +`: syntax");
    let value = wrap_outcome("1", Ok(Yaml::Bool(true))).ok().unwrap();
    assert!(value.same_as(&Yaml::Bool(true)));
}

#[test]
fn panicking_expressions_are_refused() {
    let current = env(&[("X", "")]);
    for expr in [
        "\"\"[::-1]",
        "env(\"X\")[::-1]",
        "\"abc\"[:5:-1]",
        "\"abc\"[a[0]:b:0 - 1]",
        "range(9223372036854775807, -1, -9223372036854775807)",
        "range(*[3, 0, -1])",
        "[range][0](3, 0, -1)",
        "[1, 2] * 9223372036854775807",
        "3 * (1, 2)",
        "2 * (\"a b\"|split)",
        "\"a\"|indent(9223372036854775807)",
        "[1]|batch(9223372036854775807)",
        "[1]|slice(1e18)",
        "\"%9223372036854775807d\"|format(1)",
        "env(\"F\")|format(1)",
        "[\"%99d\"]|map(\"format\", 1)",
        "[\"%99d\"]|map(\"for mat\", 1)",
        "\"%(é)s\"|format(1)",
        "\"%(a)s\"|format({\"a\": 1})",
        "\"%18446744073709551615d\" \"\" | format(1)",
        "\"%s\" \"%9\" \"d\" | format(1, 2)",
        "\"%s\" \u{c} \"d\" | format(1)",
        "() * 18446744073709551615",
        "none[:] * 18446744073709551615",
        "x[1:] * 3",
        "\"a\"|replace(\"a\", \"b\" * 99999999)",
        "[1] * 2 * 3",
        "[9 ** 9 * 9]",
        "[2 * 3 ** 9]",
        "[x.2 * 3]",
        "[2 * 3|list]",
        "[\"%99d\"]|map(\"for\" \"mat\", 1)",
        "[5]|select(\"divisible\" \"by\", 0)",
        "[x, {\"a\": 1}]|sort(attribute=\"a\")",
        "1 }} x",
        "1 -}} x",
        "{} }} {}",
        "true|chain(9999)|sort",
        "[1]|map(\"chain\", 1)",
        "5 is divisibleby(0)",
        "5 is divisibleby(false)",
        "5 is divisibleby 0",
        "[5]|select(\"divisibleby\", 0)",
    ] {
        assert!(!is_admitted(expr), "{expr}");
        let error = MinijinjaEvaluator.evaluate(expr, &current).err().unwrap();
        assert_eq!(error.expr, expr);
        assert_eq!(error.message, "expression is not supported");
    }
    assert!(is_admitted(&"-".repeat(MAX_TOKENS)));
    assert!(!is_admitted(&"-".repeat(MAX_TOKENS + 1)));
    assert!(is_admitted(&"(".repeat(MAX_NESTING)));
    assert!(!is_admitted(&"(".repeat(MAX_NESTING + 1)));
}

#[test]
fn harmless_expressions_are_evaluated() {
    let current = env(&[("N", "3")]);
    for (expr, expected) in [
        ("\"abcdef\"[1:3]", "bc"),
        ("\"abcdef\"[::2]", "ace"),
        ("\"abc\"[:]", "abc"),
        ("\"a:b\" ~ \"[::-1]\"", "a:b[::-1]"),
        ("range(env(\"N\")|int)|list|length", "3"),
        ("range(0, 10, 5)|list|last", "5"),
        ("env(\"N\")|int * 2 + 1", "7"),
        ("{\"a\": 2 * 3, \"b\": 1}.a", "6"),
        ("[2*4][0]", "8"),
        ("{\"a\": {\"b\": 1}}.a.b", "1"),
        ("[1, -2 * 3, 4 * 5 + 1]|join(\",\")", "1,-6,21"),
        ("[3, 1, 2]|sort(reverse=true)|first", "3"),
        ("[0, 1, 2]|select|length", "2"),
        ("\"é%s\"|format(\"ü\")", "éü"),
        ("\"ab\" * 2", "abab"),
        ("\"x\\ny\"|indent(2)", "x\n  y"),
        ("[1, 2, 3]|batch(2)|length", "2"),
        ("[\"a\", \"b\"]|map(\"upper\")|join", "AB"),
        ("[1, 2, 3]|select(\"odd\")|join(\"-\")", "1-3"),
        ("\"%s:%d\"|format(platform(), 80)", "darwin:80"),
        ("6 is divisibleby(3)", "true"),
        ("7 is divisibleby 3", "false"),
        ("{\"a\": 1, \"b\": -1}[\"b\"]", "-1"),
    ] {
        assert!(is_admitted(expr), "{expr}");
        assert_eq!(eval_str(expr, &current), expected, "{expr}");
    }
}

#[test]
fn expressions_are_cut_into_tokens() {
    let shown: Vec<String> = tokenize("a1 | f(\"x\\\"y\", 12)'z")
        .into_iter()
        .map(|token| match token {
            Lexeme::Name(name) => format!("n:{name}"),
            Lexeme::Number(digits) => format!("d:{digits}"),
            Lexeme::Text(text) => format!("t:{text}"),
            Lexeme::Symbol(c) => format!("s:{c}"),
        })
        .collect();
    assert_eq!(
        shown,
        vec!["n:a1", "s:|", "n:f", "s:(", "t:x\\\"y", "s:,", "d:12", "s:)", "t:z"]
    );
}
