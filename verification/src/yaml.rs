//! The bridge to `serde_yaml_ng` and `serde_json`: values in and out, and their notations.

use crate::text::concat;
use crate::value::{
    distinct_keys, number_contents, pair_views, read_number, signed_number, tag_name,
    unsigned_number, value_views, Mapping, NumberRead, Numeric, Tag, TaggedValue, Yaml, YamlView,
};
use vstd::prelude::*;

verus! {

/// The value type of `serde_yaml_ng`.
#[verifier::external_type_specification]
#[verifier::external_body]
pub struct ExYamlValue(serde_yaml_ng::Value);

/// What a `serde_yaml_ng::Value` holds. Tags count without their leading `!`, numbers by what
/// `number_contents` tells of them.
pub uninterp spec fn yaml_contents(value: serde_yaml_ng::Value) -> YamlView;

/// What `serde_yaml_ng::to_string` makes of a value, or the text of its error.
pub uninterp spec fn yaml_notation(contents: YamlView) -> Result<Seq<char>, Seq<char>>;

/// The debug notation of a `serde_yaml_ng::Value`.
pub uninterp spec fn yaml_debug(contents: YamlView) -> Seq<char>;

/// What `serde_json::to_string` makes of a value, if it does not fail.
pub uninterp spec fn json_notation(contents: YamlView) -> Option<Seq<char>>;

/// The value that `serde_json::from_str` reads from a text, if it is JSON.
pub uninterp spec fn json_parsed(text: Seq<char>) -> Option<YamlView>;

/// One level of a `serde_yaml_ng::Value`. A tag is written with its leading `!`.
pub enum Node {
    Null,
    Bool(bool),
    Number(serde_yaml_ng::Number),
    Text(String),
    Sequence(Vec<serde_yaml_ng::Value>),
    Mapping(Vec<(serde_yaml_ng::Value, serde_yaml_ng::Value)>),
    Tagged(String, Box<serde_yaml_ng::Value>),
}

/// What a list of values holds.
pub open spec fn contents_list(items: Seq<serde_yaml_ng::Value>) -> Seq<YamlView> {
    Seq::new(items.len(), |i: int| yaml_contents(items[i]))
}

/// What a list of pairs holds.
pub open spec fn contents_pairs(
    pairs: Seq<(serde_yaml_ng::Value, serde_yaml_ng::Value)>,
) -> Seq<(YamlView, YamlView)> {
    Seq::new(pairs.len(), |i: int| (yaml_contents(pairs[i].0), yaml_contents(pairs[i].1)))
}

impl Node {
    /// What the level holds, with everything below it.
    pub open spec fn contents(self) -> YamlView {
        match self {
            Node::Null => YamlView::Null,
            Node::Bool(b) => YamlView::Bool(b),
            Node::Number(n) => YamlView::Numeric(number_contents(n)),
            Node::Text(s) => YamlView::Text(s@),
            Node::Sequence(items) => YamlView::Sequence(contents_list(items@)),
            Node::Mapping(pairs) => YamlView::Mapping(contents_pairs(pairs@)),
            Node::Tagged(tag, inner) => YamlView::Tagged(
                tag@.drop_first(),
                Box::new(yaml_contents(*inner)),
            ),
        }
    }

    /// A tag is a `!` and a name, and no key of a mapping occurs twice.
    pub open spec fn is_proper(self) -> bool {
        match self {
            Node::Tagged(tag, _) => tag@.len() >= 2 && tag@[0] == '!',
            Node::Mapping(pairs) => distinct_keys(contents_pairs(pairs@)),
            _ => true,
        }
    }
}

/// The variants of `serde_yaml_ng::Value`, told apart. A tag displays itself with its leading `!`;
/// a mapping gives its pairs in insertion order, no key twice.
#[verifier::external_body]
fn split_value(value: serde_yaml_ng::Value) -> (r: Node)
    ensures
        r.contents() == yaml_contents(value),
        r.is_proper(),
{
    match value {
        serde_yaml_ng::Value::Null => Node::Null,
        serde_yaml_ng::Value::Bool(b) => Node::Bool(b),
        serde_yaml_ng::Value::Number(n) => Node::Number(n),
        serde_yaml_ng::Value::String(s) => Node::Text(s),
        serde_yaml_ng::Value::Sequence(items) => Node::Sequence(items),
        serde_yaml_ng::Value::Mapping(mapping) => Node::Mapping(mapping.into_iter().collect()),
        serde_yaml_ng::Value::Tagged(t) => Node::Tagged(t.tag.to_string(), Box::new(t.value)),
    }
}

/// The variants of `serde_yaml_ng::Value`, put together: `Tag::new` for the tag, and the pairs of a
/// mapping collected in their order.
#[verifier::external_body]
fn join_value(node: Node) -> (r: serde_yaml_ng::Value)
    requires
        node.is_proper(),
    ensures
        yaml_contents(r) == node.contents(),
{
    match node {
        Node::Null => serde_yaml_ng::Value::Null,
        Node::Bool(b) => serde_yaml_ng::Value::Bool(b),
        Node::Number(n) => serde_yaml_ng::Value::Number(n),
        Node::Text(s) => serde_yaml_ng::Value::String(s),
        Node::Sequence(items) => serde_yaml_ng::Value::Sequence(items),
        Node::Mapping(pairs) => serde_yaml_ng::Value::Mapping(pairs.into_iter().collect()),
        Node::Tagged(t, inner) => serde_yaml_ng::Value::Tagged(Box::new(
            serde_yaml_ng::value::TaggedValue { tag: serde_yaml_ng::value::Tag::new(t), value: *inner },
        )),
    }
}

/// The view of a result of texts.
pub open spec fn text_result(r: Result<String, String>) -> Result<Seq<char>, Seq<char>> {
    match r {
        Ok(text) => Ok(text@),
        Err(message) => Err(message@),
    }
}

/// `serde_yaml_ng::to_string`: notation and error text depend on what the value holds.
#[verifier::external_body]
fn notation(value: &serde_yaml_ng::Value) -> (r: Result<String, String>)
    ensures
        text_result(r) == yaml_notation(yaml_contents(*value)),
{
    serde_yaml_ng::to_string(value).map_err(|error| error.to_string())
}

/// `<serde_yaml_ng::Value as Debug>::fmt`: the text depends on what the value holds.
#[verifier::external_body]
fn debug_notation(value: &serde_yaml_ng::Value) -> (r: String)
    ensures
        r@ == yaml_debug(yaml_contents(*value)),
{
    format!("{value:?}")
}

/// `serde_json::to_string`: text and failure depend on what the value holds.
#[verifier::external_body]
fn to_json(value: &serde_yaml_ng::Value) -> (r: Option<String>)
    ensures
        crate::options::text_option(r) == json_notation(yaml_contents(*value)),
{
    serde_json::to_string(value).ok()
}

/// `serde_json::from_str`, its value converted by `serde_yaml_ng::to_value`: whether the text is
/// JSON, and what it holds, depends on the text.
#[verifier::external_body]
fn from_json(text: &str) -> (r: Option<serde_yaml_ng::Value>)
    ensures
        match r {
            Some(value) => json_parsed(text@) == Some(yaml_contents(value)),
            None => json_parsed(text@) is None,
        },
{
    let json = serde_json::from_str::<serde_json::Value>(text).ok()?;
    serde_yaml_ng::to_value(json).ok()
}

/// What is inside a value is smaller than the value.
proof fn lemma_smaller(value: YamlView, i: int)
    ensures
        match value {
            YamlView::Sequence(items) => 0 <= i < items.len() ==> decreases_to!(value => items[i]),
            YamlView::Mapping(pairs) => 0 <= i < pairs.len() ==> decreases_to!(value => pairs[i].0)
                && decreases_to!(value => pairs[i].1),
            YamlView::Tagged(_, inner) => decreases_to!(value => *inner),
            _ => true,
        },
{
    match value {
        YamlView::Sequence(items) => {
            assert(decreases_to!(value => value->Sequence_0));
        },
        YamlView::Mapping(pairs) => {
            assert(decreases_to!(value => value->Mapping_0));
            if 0 <= i < pairs.len() {
                assert(decreases_to!(pairs => pairs[i]));
                assert(decreases_to!(pairs[i] => pairs[i].0));
                assert(decreases_to!(pairs[i] => pairs[i].1));
            }
        },
        YamlView::Tagged(_, inner) => {
            assert(decreases_to!(value => value->Tagged_1));
        },
        _ => {},
    }
}

/// The library's value from one of `serde_yaml_ng`.
pub fn from_yaml(value: serde_yaml_ng::Value) -> (r: Yaml)
    ensures
        r@ == yaml_contents(value),
    decreases yaml_contents(value),
{
    let ghost whole = yaml_contents(value);
    let node = split_value(value);
    let ghost contents = node.contents();
    let r = match node {
        Node::Null => Yaml::Null,
        Node::Bool(b) => Yaml::Bool(b),
        Node::Number(n) => Yaml::Numeric(match read_number(&n) {
            NumberRead::Unsigned(unsigned) => Numeric::PosInt(unsigned),
            NumberRead::Negative(negative) => Numeric::NegInt(negative),
            NumberRead::Float(_) => Numeric::Float(n),
        }),
        Node::Text(s) => Yaml::Text(s),
        Node::Sequence(items) => {
            let mut items = items;
            let ghost all = contents_list(items@);
            let mut out: Vec<Yaml> = Vec::new();
            while items.len() > 0
                invariant
                    whole == yaml_contents(value),
                    whole == YamlView::Sequence(all),
                    all.len() == out@.len() + items@.len(),
                    forall|j: int| 0 <= j < out@.len() ==> (#[trigger] out@[j])@ == all[j],
                    forall|j: int|
                        0 <= j < items@.len() ==> yaml_contents(#[trigger] items@[j]) == all[
                        out@.len() + j],
                decreases items@.len(),
            {
                let ghost before = items@;
                let item = items.remove(0);
                let ghost at = out@.len();
                assert(yaml_contents(before[0]) == all[at as int]);
                proof {
                    lemma_smaller(whole, at as int);
                }
                out.push(from_yaml(item));
                assert forall|j: int| 0 <= j < items@.len() implies yaml_contents(
                    #[trigger] items@[j],
                ) == all[out@.len() + j] by {
                    assert(items@[j] == before[j + 1]);
                }
            }
            assert(value_views(out@) =~= all);
            Yaml::Sequence(out)
        },
        Node::Mapping(pairs) => {
            let mut pairs = pairs;
            let ghost all = contents_pairs(pairs@);
            let mut out: Vec<(Yaml, Yaml)> = Vec::new();
            while pairs.len() > 0
                invariant
                    whole == yaml_contents(value),
                    whole == YamlView::Mapping(all),
                    all.len() == out@.len() + pairs@.len(),
                    forall|j: int|
                        0 <= j < out@.len() ==> (#[trigger] out@[j]).0@ == all[j].0 && out@[j].1@
                            == all[j].1,
                    forall|j: int|
                        0 <= j < pairs@.len() ==> yaml_contents((#[trigger] pairs@[j]).0) == all[
                        out@.len() + j].0 && yaml_contents(pairs@[j].1) == all[out@.len() + j].1,
                decreases pairs@.len(),
            {
                let ghost before = pairs@;
                let (key, item) = pairs.remove(0);
                let ghost at = out@.len();
                assert(yaml_contents(before[0].0) == all[at as int].0);
                proof {
                    lemma_smaller(whole, at as int);
                }
                let key = from_yaml(key);
                let item = from_yaml(item);
                out.push((key, item));
                assert forall|j: int| 0 <= j < pairs@.len() implies yaml_contents(
                    (#[trigger] pairs@[j]).0,
                ) == all[out@.len() + j].0 && yaml_contents(pairs@[j].1) == all[out@.len() + j].1 by {
                    assert(pairs@[j] == before[j + 1]);
                }
            }
            assert(pair_views(out@) =~= all);
            Yaml::Mapping(Mapping::from_pairs(out))
        },
        Node::Tagged(tag, inner) => {
            assert(tag_name(tag@) == tag@.drop_first());
            proof {
                lemma_smaller(whole, 0);
            }
            let tag = Tag::new(tag.as_str());
            let value = from_yaml(*inner);
            Yaml::Tagged(Box::new(TaggedValue { tag, value }))
        },
    };
    proof {
        crate::value::lemma_value_view(&r);
    }
    r
}

/// The value of `serde_yaml_ng` for one of the library.
pub fn to_yaml(value: &Yaml) -> (r: serde_yaml_ng::Value)
    ensures
        yaml_contents(r) == value@,
    decreases value,
{
    proof {
        crate::value::lemma_value_view(value);
    }
    let node = match value {
        Yaml::Null => Node::Null,
        Yaml::Bool(b) => Node::Bool(*b),
        Yaml::Numeric(Numeric::PosInt(n)) => Node::Number(unsigned_number(*n)),
        Yaml::Numeric(Numeric::NegInt(n)) => Node::Number(signed_number(*n)),
        Yaml::Numeric(Numeric::Float(n)) => Node::Number(n.clone()),
        Yaml::Text(s) => Node::Text(s.clone()),
        Yaml::Sequence(items) => {
            let mut out: Vec<serde_yaml_ng::Value> = Vec::new();
            let mut i: usize = 0;
            while i < items.len()
                invariant
                    i <= items@.len(),
                    out@.len() == i,
                    decreases_to!(value => items),
                    forall|j: int| 0 <= j < i ==> yaml_contents(#[trigger] out@[j]) == items@[j]@,
                decreases items@.len() - i,
            {
                out.push(to_yaml(&items[i]));
                i += 1;
            }
            assert(contents_list(out@) =~= value_views(items@));
            Node::Sequence(out)
        },
        Yaml::Mapping(mapping) => {
            mapping.keys_differ();
            let mut out: Vec<(serde_yaml_ng::Value, serde_yaml_ng::Value)> = Vec::new();
            let mut i: usize = 0;
            while i < mapping.len()
                invariant
                    i <= mapping@.len(),
                    out@.len() == i,
                    decreases_to!(value => mapping),
                    forall|j: int|
                        0 <= j < i ==> yaml_contents((#[trigger] out@[j]).0) == mapping@[j].0
                            && yaml_contents(out@[j].1) == mapping@[j].1,
                decreases mapping@.len() - i,
            {
                let key = to_yaml(mapping.key_at(i));
                let item = to_yaml(mapping.value_at(i));
                out.push((key, item));
                i += 1;
            }
            assert(contents_pairs(out@) =~= mapping@);
            Node::Mapping(out)
        },
        Yaml::Tagged(tagged) => {
            let name = tagged.tag.name();
            let tag = concat("!", name.as_str());
            proof {
                reveal_strlit("!");
                assert(tag@.drop_first() =~= name@);
            }
            let inner = to_yaml(&tagged.value);
            Node::Tagged(tag, Box::new(inner))
        },
    };
    join_value(node)
}

/// The YAML notation of a value, or the text of the error.
pub fn to_text(value: &Yaml) -> (r: Result<String, String>)
    ensures
        text_result(r) == yaml_notation(value@),
{
    notation(&to_yaml(value))
}

/// The debug notation of a value.
pub fn to_debug(value: &Yaml) -> (r: String)
    ensures
        r@ == yaml_debug(value@),
{
    debug_notation(&to_yaml(value))
}

/// The JSON notation of a value, if it has one.
pub fn to_json_text(value: &Yaml) -> (r: Option<String>)
    ensures
        crate::options::text_option(r) == json_notation(value@),
{
    to_json(&to_yaml(value))
}

/// The value that a text holds as JSON, if it is JSON.
pub fn parse_json(text: &str) -> (r: Option<Yaml>)
    ensures
        crate::value::option_view(r) == json_parsed(text@),
{
    match from_json(text) {
        Some(value) => Some(from_yaml(value)),
        None => None,
    }
}

} // verus!
