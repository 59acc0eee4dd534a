//! Evaluation of `!expr` expressions in configs.

use crate::dict::{lookup, Dict, Duplicate};
use crate::entry::{text_under_tags, untagged};
use crate::expression::{admitted, is_admitted};
use crate::options::text_option;
use crate::text::concat3;
use crate::value::{
    distinct_keys, lemma_value_view, pair_views, value_views, Mapping, TaggedValue, Yaml, YamlView,
};
use crate::yaml::{from_yaml, to_debug, to_text, yaml_contents, yaml_debug, yaml_notation};
use vstd::prelude::*;

verus! {

/// The evaluation environment.
pub struct EvalEnv {
    /// The current platform (e.g. `darwin`, `win32`).
    pub platform: String,
    /// The config base url.
    pub base_url: String,
    /// Environment variables visible to `env()`.
    pub env_vars: Dict<String>,
}

/// What an evaluation environment is.
pub struct EnvView {
    pub platform: Seq<char>,
    pub base_url: Seq<char>,
    pub env_vars: Seq<(Seq<char>, Seq<char>)>,
}

impl View for EvalEnv {
    type V = EnvView;

    open spec fn view(&self) -> EnvView {
        EnvView {
            platform: self.platform@,
            base_url: self.base_url@,
            env_vars: self.env_vars@,
        }
    }
}

impl Default for EvalEnv {
    fn default() -> (r: EvalEnv)
        ensures
            r@ == (EnvView {
                platform: Seq::empty(),
                base_url: Seq::empty(),
                env_vars: Seq::empty(),
            }),
    {
        EvalEnv { platform: String::new(), base_url: String::new(), env_vars: Dict::new() }
    }
}

/// An expression evaluation error.
pub struct EvalError {
    /// The expression.
    pub expr: String,
    /// The error message.
    pub message: String,
}

/// What an evaluation error says.
pub struct ErrorView {
    pub expr: Seq<char>,
    pub message: Seq<char>,
}

impl View for EvalError {
    type V = ErrorView;

    open spec fn view(&self) -> ErrorView {
        ErrorView { expr: self.expr@, message: self.message@ }
    }
}

impl ErrorView {
    /// The error as a line of text.
    pub open spec fn text(self) -> Seq<char> {
        "failed to evaluate `"@ + self.expr + "`: "@ + self.message
    }
}

impl EvalError {
    /// The error as a line of text.
    pub fn to_text(&self) -> (r: String)
        ensures
            r@ == self@.text(),
    {
        let mut out = concat3("failed to evaluate `", self.expr.as_str(), "`: ");
        out.append(self.message.as_str());
        out
    }
}

/// The view of an evaluation result.
pub open spec fn outcome_view(r: Result<Yaml, EvalError>) -> Result<YamlView, ErrorView> {
    match r {
        Ok(value) => Ok(value@),
        Err(error) => Err(error@),
    }
}

/// Evaluates a single `!expr` string.
pub trait ConfigEvaluator {
    /// What `expr` evaluates to in `env`.
    spec fn outcome(&self, expr: Seq<char>, env: EnvView) -> Result<YamlView, ErrorView>;

    /// Evaluates `expr` in `env`.
    fn evaluate(&self, expr: &str, env: &EvalEnv) -> (r: Result<Yaml, EvalError>)
        ensures
            outcome_view(r) == self.outcome(expr@, env@),
    ;
}

/// The default evaluator, which runs expressions with `minijinja`.
pub struct MinijinjaEvaluator;

/// What `minijinja` evaluates an expression to, as a YAML value, or the text of the error: with
/// nothing in scope but its builtins and the functions `env(name)`, `platform()` and `base_url()`.
pub uninterp spec fn minijinja_outcome(
    expr: Seq<char>,
    platform: Seq<char>,
    base_url: Seq<char>,
    env_vars: Seq<(Seq<char>, Seq<char>)>,
) -> Result<YamlView, Seq<char>>;

/// The value of an environment variable.
fn variable(vars: &Dict<String>, name: &str) -> (r: Option<String>)
    ensures
        text_option(r) == lookup(vars@, name@),
{
    match vars.get(name) {
        Some(value) => Some(value.clone()),
        None => None,
    }
}

/// `minijinja::Environment::compile_expression` and `Expression::eval` over an empty context, the
/// result converted by `serde_yaml_ng::to_value`: value or error text depend on the expression and
/// on what the three added functions return. The expressions that it panics on are left out: see
/// `admitted`. Nothing is said of one that asks for more memory or stack than there is.
#[verifier::external_body]
fn run_minijinja(
    expr: &str,
    platform: String,
    base_url: String,
    vars: Dict<String>,
) -> (r: Result<serde_yaml_ng::Value, String>)
    requires
        admitted(expr@),
    ensures
        minijinja_outcome(expr@, platform@, base_url@, vars@) == match r {
            Ok(value) => Ok(yaml_contents(value)),
            Err(message) => Err(message@),
        },
{
    let mut environment = minijinja::Environment::new();
    environment.add_function("env", move |name: String| variable(&vars, &name));
    environment.add_function("platform", move || platform.clone());
    environment.add_function("base_url", move || base_url.clone());
    let empty = std::collections::BTreeMap::<String, String>::new();
    let compiled = environment.compile_expression(expr).map_err(|error| error.to_string())?;
    let result = compiled.eval(empty).map_err(|error| error.to_string())?;
    serde_yaml_ng::to_value(result).map_err(|error| error.to_string())
}

/// The outcome of an expression, from what `minijinja` made of it.
pub open spec fn outcome_of(expr: Seq<char>, result: Result<YamlView, Seq<char>>) -> Result<
    YamlView,
    ErrorView,
> {
    match result {
        Ok(value) => Ok(value),
        Err(message) => Err(ErrorView { expr, message }),
    }
}

/// The outcome of an expression, from what the engine made of it.
pub fn wrap_outcome(expr: &str, result: Result<Yaml, String>) -> (r: Result<Yaml, EvalError>)
    ensures
        outcome_view(r) == outcome_of(
            expr@,
            match result {
                Ok(value) => Ok(value@),
                Err(message) => Err(message@),
            },
        ),
{
    match result {
        Ok(value) => Ok(value),
        Err(message) => Err(EvalError { expr: expr.to_owned(), message }),
    }
}

impl ConfigEvaluator for MinijinjaEvaluator {
    open spec fn outcome(&self, expr: Seq<char>, env: EnvView) -> Result<YamlView, ErrorView> {
        if admitted(expr) {
            outcome_of(expr, minijinja_outcome(expr, env.platform, env.base_url, env.env_vars))
        } else {
            Err(ErrorView { expr, message: "expression is not supported"@ })
        }
    }

    fn evaluate(&self, expr: &str, env: &EvalEnv) -> (r: Result<Yaml, EvalError>) {
        if !is_admitted(expr) {
            return Err(
                EvalError {
                    expr: expr.to_owned(),
                    message: "expression is not supported".to_owned(),
                },
            );
        }
        let result = run_minijinja(
            expr,
            env.platform.clone(),
            env.base_url.clone(),
            env.env_vars.duplicate(),
        );
        match result {
            Ok(value) => wrap_outcome(expr, Ok(from_yaml(value))),
            Err(message) => wrap_outcome(expr, Err(message)),
        }
    }
}

/// What a config evaluates to, where `run` says what an expression does. Keys are left alone, and
/// the first error ends it.
pub open spec fn evaluated(
    value: YamlView,
    run: spec_fn(Seq<char>) -> Result<YamlView, ErrorView>,
) -> Result<YamlView, ErrorView>
    decreases value,
{
    match value {
        YamlView::Tagged(tag, inner) => if tag == "expr"@ {
            match untagged(*inner) {
                YamlView::Text(expr) => run(expr),
                _ => Err(
                    ErrorView {
                        expr: yaml_debug(value),
                        message: "!expr value must be a string"@,
                    },
                ),
            }
        } else {
            match evaluated(*inner, run) {
                Ok(to) => Ok(YamlView::Tagged(tag, Box::new(to))),
                Err(error) => Err(error),
            }
        },
        YamlView::Mapping(pairs) => match evaluated_pairs(pairs, run) {
            Ok(to) => Ok(YamlView::Mapping(to)),
            Err(error) => Err(error),
        },
        YamlView::Sequence(items) => match evaluated_items(items, run) {
            Ok(to) => Ok(YamlView::Sequence(to)),
            Err(error) => Err(error),
        },
        _ => Ok(value),
    }
}

/// What the values of a mapping evaluate to.
pub open spec fn evaluated_pairs(
    pairs: Seq<(YamlView, YamlView)>,
    run: spec_fn(Seq<char>) -> Result<YamlView, ErrorView>,
) -> Result<Seq<(YamlView, YamlView)>, ErrorView>
    decreases pairs,
{
    if pairs.len() == 0 {
        Ok(Seq::empty())
    } else {
        match evaluated_pairs(pairs.drop_last(), run) {
            Ok(front) => match evaluated(pairs.last().1, run) {
                Ok(to) => Ok(front.push((pairs.last().0, to))),
                Err(error) => Err(error),
            },
            Err(error) => Err(error),
        }
    }
}

/// What the items of a sequence evaluate to.
pub open spec fn evaluated_items(
    items: Seq<YamlView>,
    run: spec_fn(Seq<char>) -> Result<YamlView, ErrorView>,
) -> Result<Seq<YamlView>, ErrorView>
    decreases items,
{
    if items.len() == 0 {
        Ok(Seq::empty())
    } else {
        match evaluated_items(items.drop_last(), run) {
            Ok(front) => match evaluated(items.last(), run) {
                Ok(to) => Ok(front.push(to)),
                Err(error) => Err(error),
            },
            Err(error) => Err(error),
        }
    }
}

/// What the first `!expr` of a value, in the order of its parts, is the tag of.
pub open spec fn first_expr(value: YamlView) -> Option<YamlView>
    decreases value,
{
    match value {
        YamlView::Tagged(tag, inner) => if tag == "expr"@ {
            Some(*inner)
        } else {
            first_expr(*inner)
        },
        YamlView::Mapping(pairs) => first_expr_in_pairs(pairs),
        YamlView::Sequence(items) => first_expr_in_items(items),
        _ => None,
    }
}

/// The first `!expr` of the values of a mapping.
pub open spec fn first_expr_in_pairs(pairs: Seq<(YamlView, YamlView)>) -> Option<YamlView>
    decreases pairs,
{
    if pairs.len() == 0 {
        None
    } else {
        match first_expr_in_pairs(pairs.drop_last()) {
            Some(found) => Some(found),
            None => first_expr(pairs.last().1),
        }
    }
}

/// The first `!expr` of the items of a sequence.
pub open spec fn first_expr_in_items(items: Seq<YamlView>) -> Option<YamlView>
    decreases items,
{
    if items.len() == 0 {
        None
    } else {
        match first_expr_in_items(items.drop_last()) {
            Some(found) => Some(found),
            None => first_expr(items.last()),
        }
    }
}

/// The error that an expression at `path` is rejected with.
pub open spec fn rejection(found: YamlView, path: Seq<char>) -> ErrorView {
    ErrorView {
        expr: match yaml_notation(found) {
            Ok(text) => text,
            Err(_) => Seq::empty(),
        },
        message: "!expr is not allowed in `"@ + path + "`"@,
    }
}

/// A value without expressions evaluates to itself, whatever the evaluator.
pub proof fn plain_values_stay(
    value: YamlView,
    run: spec_fn(Seq<char>) -> Result<YamlView, ErrorView>,
)
    requires
        first_expr(value) is None,
    ensures
        evaluated(value, run) == Ok::<YamlView, ErrorView>(value),
    decreases value,
{
    match value {
        YamlView::Tagged(_, inner) => {
            plain_values_stay(*inner, run);
        },
        YamlView::Mapping(pairs) => {
            plain_pairs_stay(pairs, run);
        },
        YamlView::Sequence(items) => {
            plain_items_stay(items, run);
        },
        _ => {},
    }
}

proof fn plain_pairs_stay(
    pairs: Seq<(YamlView, YamlView)>,
    run: spec_fn(Seq<char>) -> Result<YamlView, ErrorView>,
)
    requires
        first_expr_in_pairs(pairs) is None,
    ensures
        evaluated_pairs(pairs, run) == Ok::<Seq<(YamlView, YamlView)>, ErrorView>(pairs),
    decreases pairs,
{
    if pairs.len() > 0 {
        plain_pairs_stay(pairs.drop_last(), run);
        plain_values_stay(pairs.last().1, run);
        assert(pairs.drop_last().push((pairs.last().0, pairs.last().1)) =~= pairs);
    } else {
        assert(pairs =~= Seq::<(YamlView, YamlView)>::empty());
    }
}

proof fn plain_items_stay(
    items: Seq<YamlView>,
    run: spec_fn(Seq<char>) -> Result<YamlView, ErrorView>,
)
    requires
        first_expr_in_items(items) is None,
    ensures
        evaluated_items(items, run) == Ok::<Seq<YamlView>, ErrorView>(items),
    decreases items,
{
    if items.len() > 0 {
        plain_items_stay(items.drop_last(), run);
        plain_values_stay(items.last(), run);
        assert(items.drop_last().push(items.last()) =~= items);
    } else {
        assert(items =~= Seq::<YamlView>::empty());
    }
}

/// A list evaluates item by item: to a list of the same length that holds, place by place, what the
/// items evaluate to. Where an item fails, the first one that does gives the error.
pub proof fn lists_evaluate_item_by_item(
    items: Seq<YamlView>,
    run: spec_fn(Seq<char>) -> Result<YamlView, ErrorView>,
)
    ensures
        match evaluated(YamlView::Sequence(items), run) {
            Ok(value) => {
                &&& value is Sequence
                &&& value->Sequence_0.len() == items.len()
                &&& forall|i: int|
                    0 <= i < items.len() ==> evaluated(#[trigger] items[i], run) == Ok::<
                        YamlView,
                        ErrorView,
                    >(value->Sequence_0[i])
            },
            Err(error) => exists|i: int|
                {
                    &&& 0 <= i < items.len()
                    &&& evaluated(#[trigger] items[i], run) == Err::<YamlView, ErrorView>(error)
                    &&& forall|j: int| 0 <= j < i ==> evaluated(#[trigger] items[j], run) is Ok
                },
        },
    decreases items.len(),
{
    let value = YamlView::Sequence(items);
    assert(evaluated(value, run) == match evaluated_items(items, run) {
        Ok(to) => Ok::<YamlView, ErrorView>(YamlView::Sequence(to)),
        Err(error) => Err(error),
    });
    if items.len() > 0 {
        let front = items.drop_last();
        let n = items.len() - 1;
        lists_evaluate_item_by_item(front, run);
        assert(evaluated(YamlView::Sequence(front), run) == match evaluated_items(front, run) {
            Ok(to) => Ok::<YamlView, ErrorView>(YamlView::Sequence(to)),
            Err(error) => Err(error),
        });
        match evaluated_items(front, run) {
            Ok(to) => {
                assert forall|i: int| 0 <= i < n implies evaluated(
                    #[trigger] items[i],
                    run,
                ) == Ok::<YamlView, ErrorView>(to[i]) by {
                    assert(front[i] == items[i]);
                }
                if evaluated(items.last(), run) is Err {
                    assert(evaluated(items[n], run) is Err);
                }
            },
            Err(error) => {
                let i = choose|i: int|
                    {
                        &&& 0 <= i < front.len()
                        &&& evaluated(#[trigger] front[i], run) == Err::<YamlView, ErrorView>(error)
                        &&& forall|j: int| 0 <= j < i ==> evaluated(#[trigger] front[j], run) is Ok
                    };
                assert(evaluated(items[i], run) == Err::<YamlView, ErrorView>(error));
                assert forall|j: int| 0 <= j < i implies evaluated(
                    #[trigger] items[j],
                    run,
                ) is Ok by {
                    assert(front[j] == items[j]);
                }
            },
        }
    }
}

/// A mapping evaluates value by value: it keeps its keys in their order, and under each stands what
/// the value evaluates to. Where a value fails, the first one that does gives the error.
pub proof fn mappings_evaluate_value_by_value(
    pairs: Seq<(YamlView, YamlView)>,
    run: spec_fn(Seq<char>) -> Result<YamlView, ErrorView>,
)
    ensures
        match evaluated(YamlView::Mapping(pairs), run) {
            Ok(value) => {
                &&& value is Mapping
                &&& value->Mapping_0.len() == pairs.len()
                &&& forall|i: int|
                    0 <= i < pairs.len() ==> value->Mapping_0[i].0 == (#[trigger] pairs[i]).0
                        && evaluated(pairs[i].1, run) == Ok::<YamlView, ErrorView>(
                        value->Mapping_0[i].1,
                    )
            },
            Err(error) => exists|i: int|
                {
                    &&& 0 <= i < pairs.len()
                    &&& evaluated((#[trigger] pairs[i]).1, run) == Err::<YamlView, ErrorView>(error)
                    &&& forall|j: int| 0 <= j < i ==> evaluated((#[trigger] pairs[j]).1, run) is Ok
                },
        },
    decreases pairs.len(),
{
    let value = YamlView::Mapping(pairs);
    assert(evaluated(value, run) == match evaluated_pairs(pairs, run) {
        Ok(to) => Ok::<YamlView, ErrorView>(YamlView::Mapping(to)),
        Err(error) => Err(error),
    });
    if pairs.len() > 0 {
        let front = pairs.drop_last();
        let n = pairs.len() - 1;
        mappings_evaluate_value_by_value(front, run);
        assert(evaluated(YamlView::Mapping(front), run) == match evaluated_pairs(front, run) {
            Ok(to) => Ok::<YamlView, ErrorView>(YamlView::Mapping(to)),
            Err(error) => Err(error),
        });
        match evaluated_pairs(front, run) {
            Ok(to) => {
                assert forall|i: int| 0 <= i < n implies to[i].0 == (#[trigger] pairs[i]).0
                    && evaluated(pairs[i].1, run) == Ok::<YamlView, ErrorView>(to[i].1) by {
                    assert(front[i] == pairs[i]);
                }
                if evaluated(pairs.last().1, run) is Err {
                    assert(evaluated(pairs[n].1, run) is Err);
                }
            },
            Err(error) => {
                let i = choose|i: int|
                    {
                        &&& 0 <= i < front.len()
                        &&& evaluated((#[trigger] front[i]).1, run) == Err::<YamlView, ErrorView>(
                            error,
                        )
                        &&& forall|j: int|
                            0 <= j < i ==> evaluated((#[trigger] front[j]).1, run) is Ok
                    };
                assert(evaluated(pairs[i].1, run) == Err::<YamlView, ErrorView>(error));
                assert forall|j: int| 0 <= j < i implies evaluated(
                    (#[trigger] pairs[j]).1,
                    run,
                ) is Ok by {
                    assert(front[j] == pairs[j]);
                }
            },
        }
    }
}

/// A text under `!expr` is what is run, and what comes of it takes its place. Anything else under
/// `!expr` is an error. Other tags stay, around what their values evaluate to, and values that hold
/// no others stay as they are.
pub proof fn expressions_are_run_and_the_rest_stays(
    value: YamlView,
    run: spec_fn(Seq<char>) -> Result<YamlView, ErrorView>,
)
    ensures
        match value {
            YamlView::Tagged(tag, inner) => if tag == seq!['e', 'x', 'p', 'r'] {
                match untagged(*inner) {
                    YamlView::Text(text) => evaluated(value, run) == run(text),
                    _ => evaluated(value, run) == Err::<YamlView, ErrorView>(
                        ErrorView {
                            expr: yaml_debug(value),
                            message: "!expr value must be a string"@,
                        },
                    ),
                }
            } else {
                match evaluated(*inner, run) {
                    Ok(to) => evaluated(value, run) == Ok::<YamlView, ErrorView>(
                        YamlView::Tagged(tag, Box::new(to)),
                    ),
                    Err(error) => evaluated(value, run) == Err::<YamlView, ErrorView>(error),
                }
            },
            YamlView::Sequence(_) => true,
            YamlView::Mapping(_) => true,
            _ => evaluated(value, run) == Ok::<YamlView, ErrorView>(value),
        },
{
    reveal_strlit("expr");
    assert("expr"@ =~= seq!['e', 'x', 'p', 'r']);
}

/// Whether an `!expr` stands in a value, at any depth but in a key.
pub open spec fn has_expr(value: YamlView) -> bool
    decreases value,
{
    match value {
        YamlView::Tagged(tag, inner) => tag == seq!['e', 'x', 'p', 'r'] || has_expr(*inner),
        YamlView::Mapping(pairs) => exists|i: int|
            0 <= i < pairs.len() && has_expr((#[trigger] pairs[i]).1),
        YamlView::Sequence(items) => exists|i: int|
            0 <= i < items.len() && has_expr(#[trigger] items[i]),
        _ => false,
    }
}

/// A value with an `!expr` in it is rejected, one without is not.
pub proof fn every_expr_is_found(value: YamlView)
    ensures
        first_expr(value) is Some <==> has_expr(value),
    decreases value,
{
    reveal_strlit("expr");
    assert("expr"@ =~= seq!['e', 'x', 'p', 'r']);
    match value {
        YamlView::Tagged(_, inner) => {
            every_expr_is_found(*inner);
        },
        YamlView::Mapping(pairs) => {
            lemma_expr_in_pairs(pairs);
        },
        YamlView::Sequence(items) => {
            lemma_expr_in_items(items);
        },
        _ => {},
    }
}

/// The `!expr` that is found is the first one: that of the first part that holds one.
pub proof fn the_first_expr_is_found(value: YamlView)
    ensures
        match value {
            YamlView::Tagged(tag, inner) => first_expr(value) == (if tag == seq![
                'e',
                'x',
                'p',
                'r',
            ] {
                Some(*inner)
            } else {
                first_expr(*inner)
            }),
            YamlView::Sequence(items) => forall|i: int|
                0 <= i < items.len() && has_expr(#[trigger] items[i]) && (forall|j: int|
                    0 <= j < i ==> !has_expr(#[trigger] items[j])) ==> first_expr(value)
                    == first_expr(items[i]),
            YamlView::Mapping(pairs) => forall|i: int|
                0 <= i < pairs.len() && has_expr((#[trigger] pairs[i]).1) && (forall|j: int|
                    0 <= j < i ==> !has_expr((#[trigger] pairs[j]).1)) ==> first_expr(value)
                    == first_expr(pairs[i].1),
            _ => first_expr(value) is None,
        },
{
    reveal_strlit("expr");
    assert("expr"@ =~= seq!['e', 'x', 'p', 'r']);
    match value {
        YamlView::Sequence(items) => {
            assert forall|i: int|
                0 <= i < items.len() && has_expr(#[trigger] items[i]) && (forall|j: int|
                    0 <= j < i ==> !has_expr(#[trigger] items[j])) implies first_expr(value)
                == first_expr(items[i]) by {
                lemma_first_item(items, i);
            }
        },
        YamlView::Mapping(pairs) => {
            assert forall|i: int|
                0 <= i < pairs.len() && has_expr((#[trigger] pairs[i]).1) && (forall|j: int|
                    0 <= j < i ==> !has_expr((#[trigger] pairs[j]).1)) implies first_expr(value)
                == first_expr(pairs[i].1) by {
                lemma_first_pair(pairs, i);
            }
        },
        _ => {},
    }
}

proof fn lemma_first_item(items: Seq<YamlView>, i: int)
    requires
        0 <= i < items.len(),
        has_expr(items[i]),
        forall|j: int| 0 <= j < i ==> !has_expr(#[trigger] items[j]),
    ensures
        first_expr_in_items(items) == first_expr(items[i]),
    decreases items.len(),
{
    let front = items.drop_last();
    every_expr_is_found(items[i]);
    if i < front.len() {
        assert forall|j: int| 0 <= j < i implies !has_expr(#[trigger] front[j]) by {
            assert(front[j] == items[j]);
        }
        lemma_first_item(front, i);
    } else {
        lemma_expr_in_items(front);
        if exists|j: int| 0 <= j < front.len() && has_expr(#[trigger] front[j]) {
            let j = choose|j: int| 0 <= j < front.len() && has_expr(#[trigger] front[j]);
            assert(has_expr(items[j]));
        }
    }
}

proof fn lemma_first_pair(pairs: Seq<(YamlView, YamlView)>, i: int)
    requires
        0 <= i < pairs.len(),
        has_expr(pairs[i].1),
        forall|j: int| 0 <= j < i ==> !has_expr((#[trigger] pairs[j]).1),
    ensures
        first_expr_in_pairs(pairs) == first_expr(pairs[i].1),
    decreases pairs.len(),
{
    let front = pairs.drop_last();
    every_expr_is_found(pairs[i].1);
    if i < front.len() {
        assert forall|j: int| 0 <= j < i implies !has_expr((#[trigger] front[j]).1) by {
            assert(front[j] == pairs[j]);
        }
        lemma_first_pair(front, i);
    } else {
        lemma_expr_in_pairs(front);
        if exists|j: int| 0 <= j < front.len() && has_expr((#[trigger] front[j]).1) {
            let j = choose|j: int| 0 <= j < front.len() && has_expr((#[trigger] front[j]).1);
            assert(has_expr(pairs[j].1));
        }
    }
}

/// Errors name the expression and what is wrong with it: for one that is not allowed its notation,
/// if it has one, and the place.
pub proof fn errors_name_the_expression(found: YamlView, path: Seq<char>, error: ErrorView)
    ensures
        rejection(found, path).message == "!expr is not allowed in `"@ + path + "`"@,
        yaml_notation(found) matches Ok(text) ==> rejection(found, path).expr == text,
        yaml_notation(found) is Err ==> rejection(found, path).expr.len() == 0,
        error.text() == "failed to evaluate `"@ + error.expr + "`: "@ + error.message,
        outcome_of(error.expr, Err(error.message)) == Err::<YamlView, ErrorView>(error),
        outcome_of(error.expr, Ok(found)) == Ok::<YamlView, ErrorView>(found),
{
}

/// The default evaluator gives what the engine makes of an expression that is admitted, from the
/// platform, the base url and the variables, and refuses any other.
pub proof fn admitted_expressions_are_evaluated(
    evaluator: MinijinjaEvaluator,
    expr: Seq<char>,
    env: EnvView,
)
    ensures
        !admitted(expr) ==> evaluator.outcome(expr, env) is Err && evaluator.outcome(
            expr,
            env,
        )->Err_0.expr == expr,
        admitted(expr) ==> match minijinja_outcome(
            expr,
            env.platform,
            env.base_url,
            env.env_vars,
        ) {
            Ok(value) => evaluator.outcome(expr, env) == Ok::<YamlView, ErrorView>(value),
            Err(message) => evaluator.outcome(expr, env) == Err::<YamlView, ErrorView>(
                ErrorView { expr, message },
            ),
        },
{
}

proof fn lemma_expr_in_pairs(pairs: Seq<(YamlView, YamlView)>)
    ensures
        first_expr_in_pairs(pairs) is Some <==> exists|i: int|
            0 <= i < pairs.len() && has_expr((#[trigger] pairs[i]).1),
    decreases pairs,
{
    if pairs.len() > 0 {
        let front = pairs.drop_last();
        lemma_expr_in_pairs(front);
        every_expr_is_found(pairs.last().1);
        if exists|i: int| 0 <= i < front.len() && has_expr((#[trigger] front[i]).1) {
            let i = choose|i: int| 0 <= i < front.len() && has_expr((#[trigger] front[i]).1);
            assert(has_expr(pairs[i].1));
        }
        if exists|i: int| 0 <= i < pairs.len() && has_expr((#[trigger] pairs[i]).1) {
            let i = choose|i: int| 0 <= i < pairs.len() && has_expr((#[trigger] pairs[i]).1);
            if i < front.len() {
                assert(has_expr(front[i].1));
            }
        }
        if has_expr(pairs.last().1) {
            assert(has_expr(pairs[pairs.len() - 1].1));
        }
    }
}

proof fn lemma_expr_in_items(items: Seq<YamlView>)
    ensures
        first_expr_in_items(items) is Some <==> exists|i: int|
            0 <= i < items.len() && has_expr(#[trigger] items[i]),
    decreases items,
{
    if items.len() > 0 {
        let front = items.drop_last();
        lemma_expr_in_items(front);
        every_expr_is_found(items.last());
        if exists|i: int| 0 <= i < front.len() && has_expr(#[trigger] front[i]) {
            let i = choose|i: int| 0 <= i < front.len() && has_expr(#[trigger] front[i]);
            assert(has_expr(items[i]));
        }
        if exists|i: int| 0 <= i < items.len() && has_expr(#[trigger] items[i]) {
            let i = choose|i: int| 0 <= i < items.len() && has_expr(#[trigger] items[i]);
            if i < front.len() {
                assert(has_expr(front[i]));
            }
        }
        if has_expr(items.last()) {
            assert(has_expr(items[items.len() - 1]));
        }
    }
}

/// A value without `!expr` evaluates to itself, whatever the evaluator.
pub proof fn values_without_expr_stay(
    value: YamlView,
    run: spec_fn(Seq<char>) -> Result<YamlView, ErrorView>,
)
    requires
        !has_expr(value),
    ensures
        evaluated(value, run) == Ok::<YamlView, ErrorView>(value),
{
    every_expr_is_found(value);
    plain_values_stay(value, run);
}

/// An error among the first pairs is the error of all.
proof fn lemma_pairs_error(
    pairs: Seq<(YamlView, YamlView)>,
    n: int,
    run: spec_fn(Seq<char>) -> Result<YamlView, ErrorView>,
)
    requires
        0 <= n <= pairs.len(),
        evaluated_pairs(pairs.take(n), run) is Err,
    ensures
        evaluated_pairs(pairs, run) == evaluated_pairs(pairs.take(n), run),
    decreases pairs.len(),
{
    if n < pairs.len() {
        assert(pairs.drop_last().take(n) =~= pairs.take(n));
        lemma_pairs_error(pairs.drop_last(), n, run);
    } else {
        assert(pairs.take(n) =~= pairs);
    }
}

proof fn lemma_items_error(
    items: Seq<YamlView>,
    n: int,
    run: spec_fn(Seq<char>) -> Result<YamlView, ErrorView>,
)
    requires
        0 <= n <= items.len(),
        evaluated_items(items.take(n), run) is Err,
    ensures
        evaluated_items(items, run) == evaluated_items(items.take(n), run),
    decreases items.len(),
{
    if n < items.len() {
        assert(items.drop_last().take(n) =~= items.take(n));
        lemma_items_error(items.drop_last(), n, run);
    } else {
        assert(items.take(n) =~= items);
    }
}

proof fn lemma_pairs_found(pairs: Seq<(YamlView, YamlView)>, n: int)
    requires
        0 <= n <= pairs.len(),
        first_expr_in_pairs(pairs.take(n)) is Some,
    ensures
        first_expr_in_pairs(pairs) == first_expr_in_pairs(pairs.take(n)),
    decreases pairs.len(),
{
    if n < pairs.len() {
        assert(pairs.drop_last().take(n) =~= pairs.take(n));
        lemma_pairs_found(pairs.drop_last(), n);
    } else {
        assert(pairs.take(n) =~= pairs);
    }
}

proof fn lemma_items_found(items: Seq<YamlView>, n: int)
    requires
        0 <= n <= items.len(),
        first_expr_in_items(items.take(n)) is Some,
    ensures
        first_expr_in_items(items) == first_expr_in_items(items.take(n)),
    decreases items.len(),
{
    if n < items.len() {
        assert(items.drop_last().take(n) =~= items.take(n));
        lemma_items_found(items.drop_last(), n);
    } else {
        assert(items.take(n) =~= items);
    }
}

/// Evaluates every `!expr` in `value`.
pub fn evaluate_config<E: ConfigEvaluator>(value: &Yaml, evaluator: &E, env: &EvalEnv) -> (r: Result<
    Yaml,
    EvalError,
>)
    ensures
        outcome_view(r) == evaluated(value@, |expr: Seq<char>| evaluator.outcome(expr, env@)),
    decreases value,
{
    let ghost run = |expr: Seq<char>| evaluator.outcome(expr, env@);
    proof {
        lemma_value_view(value);
    }
    match value {
        Yaml::Tagged(tagged) => {
            if tagged.tag.is("expr") {
                match text_under_tags(&tagged.value) {
                    Some(expr) => evaluator.evaluate(expr.as_str(), env),
                    None => Err(
                        EvalError {
                            expr: to_debug(value),
                            message: "!expr value must be a string".to_owned(),
                        },
                    ),
                }
            } else {
                match evaluate_config(&tagged.value, evaluator, env) {
                    Ok(inner) => {
                        let tag = tagged.tag.clone();
                        let out = Yaml::Tagged(Box::new(TaggedValue { tag, value: inner }));
                        proof {
                            lemma_value_view(&out);
                        }
                        Ok(out)
                    },
                    Err(error) => Err(error),
                }
            }
        },
        Yaml::Mapping(mapping) => {
            mapping.keys_differ();
            let ghost all = mapping@;
            let mut out: Vec<(Yaml, Yaml)> = Vec::new();
            let mut i: usize = 0;
            assert(all.take(0) =~= Seq::<(YamlView, YamlView)>::empty());
            assert(pair_views(out@) =~= Seq::<(YamlView, YamlView)>::empty());
            while i < mapping.len()
                invariant
                    i <= mapping@.len(),
                    all == mapping@,
                    value@ == YamlView::Mapping(all),
                    distinct_keys(all),
                    out@.len() == i,
                    run == (|expr: Seq<char>| evaluator.outcome(expr, env@)),
                    forall|j: int| 0 <= j < i ==> (#[trigger] out@[j]).0@ == all[j].0,
                    evaluated_pairs(all.take(i as int), run) == Ok::<
                        Seq<(YamlView, YamlView)>,
                        ErrorView,
                    >(pair_views(out@)),
                    decreases_to!(value => mapping),
                decreases mapping@.len() - i,
            {
                assert(all.take(i + 1).drop_last() =~= all.take(i as int));
                match evaluate_config(mapping.value_at(i), evaluator, env) {
                    Ok(item) => {
                        let ghost before = pair_views(out@);
                        let ghost to = item@;
                        out.push((mapping.key_at(i).clone(), item));
                        assert(pair_views(out@) =~= before.push((all[i as int].0, to)));
                    },
                    Err(error) => {
                        proof {
                            lemma_pairs_error(all, i + 1, run);
                        }
                        return Err(error);
                    },
                }
                i += 1;
            }
            assert(all.take(i as int) =~= all);
            assert forall|a: int, b: int| 0 <= a < b < pair_views(out@).len() implies !crate::value::same(
                (#[trigger] pair_views(out@)[a]).0,
                (#[trigger] pair_views(out@)[b]).0,
            ) by {
                assert(out@[a].0@ == all[a].0 && out@[b].0@ == all[b].0);
                assert(!crate::value::same(all[a].0, all[b].0));
            }
            let out = Yaml::Mapping(Mapping::from_pairs(out));
            proof {
                lemma_value_view(&out);
            }
            Ok(out)
        },
        Yaml::Sequence(items) => {
            let ghost all = value_views(items@);
            let mut out: Vec<Yaml> = Vec::new();
            let mut i: usize = 0;
            assert(all.take(0) =~= Seq::<YamlView>::empty());
            assert(value_views(out@) =~= Seq::<YamlView>::empty());
            while i < items.len()
                invariant
                    i <= items@.len(),
                    all == value_views(items@),
                    value@ == YamlView::Sequence(all),
                    run == (|expr: Seq<char>| evaluator.outcome(expr, env@)),
                    evaluated_items(all.take(i as int), run) == Ok::<Seq<YamlView>, ErrorView>(
                        value_views(out@),
                    ),
                    decreases_to!(value => items),
                decreases items@.len() - i,
            {
                assert(all.take(i + 1).drop_last() =~= all.take(i as int));
                match evaluate_config(&items[i], evaluator, env) {
                    Ok(item) => {
                        let ghost before = value_views(out@);
                        let ghost to = item@;
                        out.push(item);
                        assert(value_views(out@) =~= before.push(to));
                    },
                    Err(error) => {
                        proof {
                            lemma_items_error(all, i + 1, run);
                        }
                        return Err(error);
                    },
                }
                i += 1;
            }
            assert(all.take(i as int) =~= all);
            let out = Yaml::Sequence(out);
            proof {
                lemma_value_view(&out);
            }
            Ok(out)
        },
        _ => Ok(value.clone()),
    }
}

/// Fails where `value` holds an `!expr`.
pub fn reject_exprs(value: &Yaml, path: &str) -> (r: Result<(), EvalError>)
    ensures
        match first_expr(value@) {
            Some(found) => r is Err && r->Err_0@ == rejection(found, path@),
            None => r is Ok,
        },
    decreases value,
{
    proof {
        lemma_value_view(value);
    }
    match value {
        Yaml::Tagged(tagged) => {
            if tagged.tag.is("expr") {
                let expr = match to_text(&tagged.value) {
                    Ok(text) => text,
                    Err(_) => String::new(),
                };
                let message = concat3("!expr is not allowed in `", path, "`");
                return Err(EvalError { expr, message });
            }
            reject_exprs(&tagged.value, path)
        },
        Yaml::Mapping(mapping) => {
            let ghost all = mapping@;
            let mut i: usize = 0;
            assert(all.take(0) =~= Seq::<(YamlView, YamlView)>::empty());
            while i < mapping.len()
                invariant
                    i <= mapping@.len(),
                    all == mapping@,
                    value@ == YamlView::Mapping(all),
                    first_expr_in_pairs(all.take(i as int)) is None,
                    decreases_to!(value => mapping),
                decreases mapping@.len() - i,
            {
                assert(all.take(i + 1).drop_last() =~= all.take(i as int));
                if let Err(error) = reject_exprs(mapping.value_at(i), path) {
                    proof {
                        lemma_pairs_found(all, i + 1);
                    }
                    return Err(error);
                }
                i += 1;
            }
            assert(all.take(i as int) =~= all);
            Ok(())
        },
        Yaml::Sequence(items) => {
            let ghost all = value_views(items@);
            let mut i: usize = 0;
            assert(all.take(0) =~= Seq::<YamlView>::empty());
            while i < items.len()
                invariant
                    i <= items@.len(),
                    all == value_views(items@),
                    value@ == YamlView::Sequence(all),
                    first_expr_in_items(all.take(i as int)) is None,
                    decreases_to!(value => items),
                decreases items@.len() - i,
            {
                assert(all.take(i + 1).drop_last() =~= all.take(i as int));
                if let Err(error) = reject_exprs(&items[i], path) {
                    proof {
                        lemma_items_found(all, i + 1);
                    }
                    return Err(error);
                }
                i += 1;
            }
            assert(all.take(i as int) =~= all);
            Ok(())
        },
        _ => Ok(()),
    }
}

} // verus!
