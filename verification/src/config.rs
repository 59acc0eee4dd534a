//! Config files: their formats, what is allowed in them, and how options are written back.

use crate::dict::Dict;
use crate::evaluator::{first_expr, reject_exprs, rejection};
use crate::options::{EntryOptions, IsolateValue, IsolateView, OptionsView};
use crate::reconcile::options_views;
use crate::text::{concat, concat3, same_text, text_less, text_lt, texts};
use crate::value::{inserted, pair_views, same, value_views, Mapping, Yaml, YamlView};
use crate::yaml::{text_result, to_text, yaml_notation};
use vstd::prelude::*;

verus! {

/// The formats of config files.
#[derive(PartialEq, Eq, Structural, Clone, Copy)]
pub enum ConfigFormat {
    Json,
    Yaml,
}

/// The format that a file extension stands for.
pub open spec fn format_of(extension: Seq<char>) -> Option<ConfigFormat> {
    if extension == "json"@ {
        Some(ConfigFormat::Json)
    } else if extension == "yaml"@ || extension == "yml"@ {
        Some(ConfigFormat::Yaml)
    } else {
        None
    }
}

/// The format that a file extension stands for.
pub fn config_format(extension: &str) -> (r: Result<ConfigFormat, String>)
    ensures
        match format_of(extension@) {
            Some(format) => r == Ok::<ConfigFormat, String>(format),
            None => r is Err && r->Err_0@ == "extension not supported: "@ + extension@,
        },
{
    if same_text(extension, "json") {
        Ok(ConfigFormat::Json)
    } else if same_text(extension, "yaml") || same_text(extension, "yml") {
        Ok(ConfigFormat::Yaml)
    } else {
        Err(concat("extension not supported: ", extension))
    }
}

/// What can go wrong with a config file.
#[derive(PartialEq, Eq, Structural, Clone, Copy)]
pub enum ConfigFault {
    /// The file cannot be read.
    Read,
    /// The file is no JSON of the right shape.
    Json,
    /// The file is no YAML of the right shape.
    Yaml,
    /// The file holds an expression where none is allowed.
    Content,
}

/// How a fault is announced.
pub open spec fn fault_prefix(fault: ConfigFault) -> Seq<char> {
    match fault {
        ConfigFault::Read => "cannot read config file "@,
        ConfigFault::Json => "invalid json in "@,
        ConfigFault::Yaml => "invalid yaml in "@,
        ConfigFault::Content => "invalid config in "@,
    }
}

/// The message of a fault, from the notations of the path and of the error behind it.
pub fn fault_message(fault: ConfigFault, path: &str, error: &str) -> (r: String)
    ensures
        r@ == fault_prefix(fault) + path@ + ": "@ + error@,
{
    let prefix = match fault {
        ConfigFault::Read => "cannot read config file ",
        ConfigFault::Json => "invalid json in ",
        ConfigFault::Yaml => "invalid yaml in ",
        ConfigFault::Content => "invalid config in ",
    };
    let mut out = concat3(prefix, path, ": ");
    out.append(error);
    out
}

/// The first expression in an `intercept` option of the list.
pub open spec fn first_intercept_expr(configs: Seq<OptionsView>) -> Option<YamlView>
    decreases configs.len(),
{
    if configs.len() == 0 {
        None
    } else {
        match first_intercept_expr(configs.drop_last()) {
            Some(found) => Some(found),
            None => match configs.last().intercept {
                Some(intercept) => first_expr(intercept),
                None => None,
            },
        }
    }
}

proof fn lemma_first_intercept(configs: Seq<OptionsView>, n: int)
    requires
        0 <= n <= configs.len(),
        first_intercept_expr(configs.take(n)) is Some,
    ensures
        first_intercept_expr(configs) == first_intercept_expr(configs.take(n)),
    decreases configs.len(),
{
    if n < configs.len() {
        assert(configs.drop_last().take(n) =~= configs.take(n));
        lemma_first_intercept(configs.drop_last(), n);
    } else {
        assert(configs.take(n) =~= configs);
    }
}

/// Checks options read from the file at `path`: expressions are allowed in `config` only.
pub fn check_config(configs: &Vec<EntryOptions>, path: &str) -> (r: Result<(), String>)
    ensures
        match first_intercept_expr(options_views(configs@)) {
            Some(found) => r is Err && r->Err_0@ == fault_prefix(ConfigFault::Content) + path@
                + ": "@ + rejection(found, "intercept"@).text(),
            None => r is Ok,
        },
{
    let ghost all = options_views(configs@);
    let mut i: usize = 0;
    assert(all.take(0) =~= Seq::<OptionsView>::empty());
    while i < configs.len()
        invariant
            i <= configs@.len(),
            all == options_views(configs@),
            first_intercept_expr(all.take(i as int)) is None,
        decreases configs@.len() - i,
    {
        assert(all.take(i + 1).drop_last() =~= all.take(i as int));
        assert(all[i as int] == configs@[i as int]@);
        if let Some(intercept) = &configs[i].intercept {
            if let Err(error) = reject_exprs(intercept, "intercept") {
                proof {
                    lemma_first_intercept(all, i + 1);
                }
                let text = error.to_text();
                return Err(fault_message(ConfigFault::Content, path, text.as_str()));
            }
        }
        i += 1;
    }
    assert(all.take(i as int) =~= all);
    Ok(())
}

/// What a config file comes to, from what its text was parsed to: the options, or the message of
/// the first fault.
pub fn parse_config(
    format: ConfigFormat,
    path: &str,
    parsed: Result<Vec<EntryOptions>, String>,
) -> (r: Result<Vec<EntryOptions>, String>)
    ensures
        match parsed {
            Err(error) => r is Err && r->Err_0@ == fault_prefix(
                match format {
                    ConfigFormat::Json => ConfigFault::Json,
                    ConfigFormat::Yaml => ConfigFault::Yaml,
                },
            ) + path@ + ": "@ + error@,
            Ok(configs) => match first_intercept_expr(options_views(configs@)) {
                Some(found) => r is Err && r->Err_0@ == fault_prefix(ConfigFault::Content) + path@
                    + ": "@ + rejection(found, "intercept"@).text(),
                None => r == Ok::<Vec<EntryOptions>, String>(configs),
            },
        },
{
    match parsed {
        Err(error) => {
            let fault = match format {
                ConfigFormat::Json => ConfigFault::Json,
                ConfigFormat::Yaml => ConfigFault::Yaml,
            };
            Err(fault_message(fault, path, error.as_str()))
        },
        Ok(configs) => match check_config(&configs, path) {
            Ok(_) => Ok(configs),
            Err(message) => Err(message),
        },
    }
}

/// A sorted list with `value` under `key`: an equal key gets the new value, a new one goes where
/// the order puts it.
pub open spec fn placed(
    list: Seq<(Seq<char>, YamlView)>,
    key: Seq<char>,
    value: YamlView,
) -> Seq<(Seq<char>, YamlView)>
    decreases list.len(),
{
    if list.len() == 0 {
        seq![(key, value)]
    } else if list[0].0 == key {
        seq![(key, value)] + list.drop_first()
    } else if text_lt(key, list[0].0) {
        seq![(key, value)] + list
    } else {
        seq![list[0]] + placed(list.drop_first(), key, value)
    }
}

/// `placed`, where there is a value.
pub open spec fn placed_option(
    list: Seq<(Seq<char>, YamlView)>,
    key: Seq<char>,
    value: Option<YamlView>,
) -> Seq<(Seq<char>, YamlView)> {
    match value {
        Some(v) => placed(list, key, v),
        None => list,
    }
}

/// All pairs of `more` placed in the list.
pub open spec fn placed_all(
    list: Seq<(Seq<char>, YamlView)>,
    more: Seq<(Seq<char>, YamlView)>,
) -> Seq<(Seq<char>, YamlView)>
    decreases more.len(),
{
    if more.len() == 0 {
        list
    } else {
        placed(placed_all(list, more.drop_last()), more.last().0, more.last().1)
    }
}

/// A flag as a value.
pub open spec fn flag_value(flag: Option<bool>) -> Option<YamlView> {
    match flag {
        Some(b) => Some(YamlView::Bool(b)),
        None => None,
    }
}

/// A list of names as a value.
pub open spec fn names_value(names: Seq<Seq<char>>) -> YamlView {
    YamlView::Sequence(Seq::new(names.len(), |i: int| YamlView::Text(names[i])))
}

/// An isolate declaration as a value.
pub open spec fn isolate_value(declared: IsolateView) -> YamlView {
    match declared {
        IsolateView::Flag(flag) => YamlView::Bool(flag),
        IsolateView::Label(label) => YamlView::Text(label),
    }
}

/// Isolate declarations as a value.
pub open spec fn isolates_value(isolates: Seq<(Seq<char>, IsolateView)>) -> YamlView {
    YamlView::Mapping(
        Seq::new(
            isolates.len(),
            |i: int| (YamlView::Text(isolates[i].0), isolate_value(isolates[i].1)),
        ),
    )
}

/// The view of an optional list of names as a value.
pub open spec fn inject_value(inject: Option<Seq<Seq<char>>>) -> Option<YamlView> {
    match inject {
        Some(names) => Some(names_value(names)),
        None => None,
    }
}

/// Optional isolate declarations as a value.
pub open spec fn isolate_option_value(
    isolate: Option<Seq<(Seq<char>, IsolateView)>>,
) -> Option<YamlView> {
    match isolate {
        Some(isolates) => Some(isolates_value(isolates)),
        None => None,
    }
}

/// The keys between `name` and `config`, in alphabetical order.
pub open spec fn middle_pairs(options: OptionsView) -> Seq<(Seq<char>, YamlView)> {
    let a = placed_option(Seq::empty(), "disabled"@, flag_value(options.disabled));
    let b = placed_option(a, "group"@, flag_value(options.group));
    let c = placed_option(b, "inject"@, inject_value(options.inject));
    let d = placed_option(c, "intercept"@, options.intercept);
    let e = placed_option(d, "isolate"@, isolate_option_value(options.isolate));
    placed_all(e, options.extra)
}

/// Pairs inserted into a mapping one after another.
pub open spec fn inserted_all(
    pairs: Seq<(YamlView, YamlView)>,
    more: Seq<(Seq<char>, YamlView)>,
) -> Seq<(YamlView, YamlView)>
    decreases more.len(),
{
    if more.len() == 0 {
        pairs
    } else {
        inserted(
            inserted_all(pairs, more.drop_last()),
            YamlView::Text(more.last().0),
            more.last().1,
        )
    }
}

/// The head of every written entry.
pub open spec fn head_pairs(options: OptionsView) -> Seq<(YamlView, YamlView)> {
    inserted(
        inserted(Seq::empty(), YamlView::Text("id"@), YamlView::Text(options.id)),
        YamlView::Text("name"@),
        YamlView::Text(options.name),
    )
}

/// Options as they are written: `id` and `name` first, `config` last, the rest in alphabetical
/// order.
pub open spec fn sorted_pairs(options: OptionsView) -> Seq<(YamlView, YamlView)> {
    let pairs = inserted_all(head_pairs(options), middle_pairs(options));
    match options.config {
        Some(config) => inserted(pairs, YamlView::Text("config"@), config),
        None => pairs,
    }
}

/// A list of options as it is written.
pub open spec fn sorted_list(configs: Seq<OptionsView>) -> YamlView {
    YamlView::Sequence(
        Seq::new(configs.len(), |i: int| YamlView::Mapping(sorted_pairs(configs[i]))),
    )
}

spec fn named_views(list: Seq<(String, Yaml)>) -> Seq<(Seq<char>, YamlView)> {
    Seq::new(list.len(), |i: int| (list[i].0@, list[i].1@))
}

proof fn lemma_placed_front(
    list: Seq<(Seq<char>, YamlView)>,
    key: Seq<char>,
    value: YamlView,
    i: int,
)
    requires
        0 <= i <= list.len(),
        forall|j: int|
            0 <= j < i ==> (#[trigger] list[j]).0 != key && !text_lt(key, list[j].0),
    ensures
        placed(list, key, value) == list.take(i) + placed(list.skip(i), key, value),
    decreases i,
{
    if i == 0 {
        assert(list.skip(0) =~= list);
        assert(list.take(0) + placed(list, key, value) =~= placed(list, key, value));
    } else {
        let rest = list.drop_first();
        assert forall|j: int| 0 <= j < i - 1 implies (#[trigger] rest[j]).0 != key && !text_lt(
            key,
            rest[j].0,
        ) by {
            assert(rest[j] == list[j + 1]);
        }
        assert(list[0].0 != key);
        lemma_placed_front(rest, key, value, i - 1);
        assert(rest.skip(i - 1) =~= list.skip(i));
        assert(seq![list[0]] + (rest.take(i - 1) + placed(list.skip(i), key, value))
            =~= list.take(i) + placed(list.skip(i), key, value));
    }
}

fn place(list: &mut Vec<(String, Yaml)>, key: String, value: Yaml)
    ensures
        named_views(final(list)@) == placed(named_views(old(list)@), key@, value@),
{
    let ghost all = named_views(list@);
    let mut i: usize = 0;
    while i < list.len()
        invariant
            i <= list@.len(),
            all == named_views(list@),
            all == named_views(old(list)@),
            forall|j: int|
                0 <= j < i ==> (#[trigger] all[j]).0 != key@ && !text_lt(key@, all[j].0),
        decreases list@.len() - i,
    {
        assert(all[i as int].0 == list@[i as int].0@);
        if list[i].0 == key {
            proof {
                lemma_placed_front(all, key@, value@, i as int);
            }
            list[i].1 = value;
            assert(named_views(list@) =~= all.take(i as int) + (seq![(key@, value@)] + all.skip(
                i as int,
            ).drop_first()));
            return;
        }
        if text_less(key.as_str(), list[i].0.as_str()) {
            proof {
                lemma_placed_front(all, key@, value@, i as int);
            }
            let ghost k = key@;
            let ghost v = value@;
            list.insert(i, (key, value));
            assert(named_views(list@) =~= all.take(i as int) + (seq![(k, v)] + all.skip(i as int)));
            return;
        }
        i += 1;
    }
    proof {
        lemma_placed_front(all, key@, value@, i as int);
    }
    let ghost k = key@;
    let ghost v = value@;
    list.push((key, value));
    assert(named_views(list@) =~= all.take(i as int) + seq![(k, v)]);
}

/// The names as a value.
pub fn names_to_yaml(names: &Vec<String>) -> (r: Yaml)
    ensures
        r@ == names_value(texts(names@)),
{
    let mut out: Vec<Yaml> = Vec::new();
    let mut i: usize = 0;
    while i < names.len()
        invariant
            i <= names@.len(),
            out@.len() == i,
            forall|j: int| 0 <= j < i ==> (#[trigger] out@[j])@ == YamlView::Text(names@[j]@),
        decreases names@.len() - i,
    {
        out.push(Yaml::text(names[i].as_str()));
        i += 1;
    }
    assert(value_views(out@) =~= names_value(texts(names@))->Sequence_0);
    Yaml::list(out)
}

/// The isolate declarations as a value.
pub fn isolates_to_yaml(isolates: &Dict<IsolateValue>) -> (r: Yaml)
    ensures
        r@ == isolates_value(isolates@),
{
    isolates.keys_are_distinct();
    let mut out: Vec<(Yaml, Yaml)> = Vec::new();
    let mut i: usize = 0;
    while i < isolates.len()
        invariant
            i <= isolates@.len(),
            out@.len() == i,
            forall|j: int|
                0 <= j < i ==> (#[trigger] out@[j]).0@ == YamlView::Text(isolates@[j].0)
                    && out@[j].1@ == isolate_value(isolates@[j].1),
        decreases isolates@.len() - i,
    {
        let value = match isolates.value_at(i) {
            IsolateValue::Flag(flag) => Yaml::flag(*flag),
            IsolateValue::Label(label) => Yaml::text(label.as_str()),
        };
        out.push((Yaml::text(isolates.key_at(i).as_str()), value));
        i += 1;
    }
    let ghost pairs = isolates_value(isolates@)->Mapping_0;
    assert(pair_views(out@) =~= pairs);
    assert forall|a: int, b: int| 0 <= a < b < pairs.len() implies !same(
        (#[trigger] pairs[a]).0,
        (#[trigger] pairs[b]).0,
    ) by {
        assert(isolates@[a].0 != isolates@[b].0);
    }
    Yaml::mapping(Mapping::from_pairs(out))
}

/// The keys between `name` and `config`.
fn middle(options: &EntryOptions) -> (r: Vec<(String, Yaml)>)
    ensures
        named_views(r@) == middle_pairs(options@),
{
    let mut out: Vec<(String, Yaml)> = Vec::new();
    assert(named_views(out@) =~= Seq::<(Seq<char>, YamlView)>::empty());
    if let Some(disabled) = options.disabled {
        place(&mut out, "disabled".to_owned(), Yaml::flag(disabled));
    }
    if let Some(group) = options.group {
        place(&mut out, "group".to_owned(), Yaml::flag(group));
    }
    if let Some(inject) = &options.inject {
        place(&mut out, "inject".to_owned(), names_to_yaml(inject));
    }
    if let Some(intercept) = &options.intercept {
        place(&mut out, "intercept".to_owned(), intercept.clone());
    }
    if let Some(isolate) = &options.isolate {
        place(&mut out, "isolate".to_owned(), isolates_to_yaml(isolate));
    }
    let ghost start = named_views(out@);
    let ghost all = options@.extra;
    let mut i: usize = 0;
    assert(all.take(0) =~= Seq::<(Seq<char>, YamlView)>::empty());
    while i < options.extra.len()
        invariant
            i <= all.len(),
            all == options.extra@,
            named_views(out@) == placed_all(start, all.take(i as int)),
        decreases all.len() - i,
    {
        assert(all.take(i + 1).drop_last() =~= all.take(i as int));
        place(&mut out, options.extra.key_at(i).clone(), options.extra.value_at(i).clone());
        i += 1;
    }
    assert(all.take(i as int) =~= all);
    out
}

/// Options as they are written.
pub fn to_sorted_value(options: &EntryOptions) -> (r: Yaml)
    ensures
        r@ == YamlView::Mapping(sorted_pairs(options@)),
{
    let mut mapping = Mapping::new();
    mapping.insert(Yaml::text("id"), Yaml::text(options.id.as_str()));
    mapping.insert(Yaml::text("name"), Yaml::text(options.name.as_str()));
    let between = middle(options);
    let ghost start = mapping@;
    let ghost all = middle_pairs(options@);
    let mut i: usize = 0;
    assert(all.take(0) =~= Seq::<(Seq<char>, YamlView)>::empty());
    assert(named_views(between@).len() == between@.len());
    while i < between.len()
        invariant
            i <= between@.len(),
            all == named_views(between@),
            mapping@ == inserted_all(start, all.take(i as int)),
        decreases between@.len() - i,
    {
        assert(all.take(i + 1).drop_last() =~= all.take(i as int));
        assert(all[i as int] == (between@[i as int].0@, between@[i as int].1@));
        mapping.insert(Yaml::text(between[i].0.as_str()), between[i].1.clone());
        i += 1;
    }
    assert(all.take(i as int) =~= all);
    if let Some(config) = &options.config {
        mapping.insert(Yaml::text("config"), config.clone());
    }
    Yaml::mapping(mapping)
}

/// The list of written options as a value.
pub fn to_sorted_list(configs: &Vec<EntryOptions>) -> (r: Yaml)
    ensures
        r@ == sorted_list(options_views(configs@)),
{
    let mut out: Vec<Yaml> = Vec::new();
    let mut i: usize = 0;
    while i < configs.len()
        invariant
            i <= configs@.len(),
            out@.len() == i,
            forall|j: int|
                0 <= j < i ==> (#[trigger] out@[j])@ == YamlView::Mapping(
                    sorted_pairs(configs@[j]@),
                ),
        decreases configs@.len() - i,
    {
        out.push(to_sorted_value(&configs[i]));
        i += 1;
    }
    assert(value_views(out@) =~= sorted_list(options_views(configs@))->Sequence_0);
    Yaml::list(out)
}

/// The text of a config file, from what became of its notation.
pub open spec fn file_text(notation: Result<Seq<char>, Seq<char>>) -> Result<Seq<char>, Seq<char>> {
    match notation {
        Ok(text) => Ok(text),
        Err(message) => Err("cannot serialize config: "@ + message),
    }
}

/// The text of a config file, from what became of its notation.
pub fn wrap_notation(notation: Result<String, String>) -> (r: Result<String, String>)
    ensures
        text_result(r) == file_text(text_result(notation)),
{
    match notation {
        Ok(text) => Ok(text),
        Err(message) => Err(concat("cannot serialize config: ", message.as_str())),
    }
}

/// The text of a config file with these options.
pub fn serialize_config(configs: &Vec<EntryOptions>) -> (r: Result<String, String>)
    ensures
        text_result(r) == file_text(yaml_notation(sorted_list(options_views(configs@)))),
{
    wrap_notation(to_text(&to_sorted_list(configs)))
}

/// The extension of the file that is written before it takes the place of the config file.
pub fn temporary_extension(extension: &str) -> (r: String)
    ensures
        r@ == extension@ + "tmp"@,
{
    concat(extension, "tmp")
}

/// The steps of writing a config file that can fail.
#[derive(PartialEq, Eq, Structural, Clone, Copy)]
pub enum WriteFault {
    /// The target is a directory, or the file may not be written.
    Readonly,
    /// The temporary file cannot be written.
    Write,
    /// The temporary file cannot take the place of the config file.
    Rename,
}

/// The message of a failed write.
pub open spec fn write_fault_text(fault: WriteFault, error: Seq<char>) -> Seq<char> {
    match fault {
        WriteFault::Readonly => "cannot overwrite readonly config"@,
        WriteFault::Write => "cannot write config file: "@ + error,
        WriteFault::Rename => "cannot rename config file: "@ + error,
    }
}

/// The message of a failed write, from the text of the error behind it.
pub fn write_fault_message(fault: WriteFault, error: &str) -> (r: String)
    ensures
        r@ == write_fault_text(fault, error@),
{
    match fault {
        WriteFault::Readonly => "cannot overwrite readonly config".to_owned(),
        WriteFault::Write => concat("cannot write config file: ", error),
        WriteFault::Rename => concat("cannot rename config file: ", error),
    }
}

} // verus!
