//! Options as configuration values: how they are read from a value and written to one.

use crate::config::{
    flag_value, head_pairs, inject_value, inserted_all, isolate_option_value, isolates_to_yaml,
    names_to_yaml,
};
use crate::dict::{assign, Dict};
use crate::entry::{text_under_tags, untagged};
use crate::options::{
    dict_option, text_option, texts_option, value_or, EntryOptions, IsolateValue, IsolateView,
    OptionsView,
};
use crate::reconcile::options_views;
use crate::text::{same_text, texts};
use crate::value::{inserted, lemma_value_view, option_view, value_views, Mapping, Yaml, YamlView};
use vstd::prelude::*;

verus! {

/// A text, apart from tags.
pub open spec fn as_text(value: YamlView) -> Option<Seq<char>> {
    match untagged(value) {
        YamlView::Text(text) => Some(text),
        _ => None,
    }
}

/// A flag, apart from tags; null stands for none.
pub open spec fn as_flag(value: YamlView) -> Option<Option<bool>> {
    if value is Null {
        Some(None)
    } else {
        match untagged(value) {
            YamlView::Bool(flag) => Some(Some(flag)),
            _ => None,
        }
    }
}

/// Any value; null stands for none.
pub open spec fn as_any(value: YamlView) -> Option<YamlView> {
    if value is Null {
        None
    } else {
        Some(value)
    }
}

/// The texts of a list, if all items are texts.
pub open spec fn all_texts(items: Seq<YamlView>) -> Option<Seq<Seq<char>>>
    decreases items.len(),
{
    if items.len() == 0 {
        Some(Seq::empty())
    } else {
        match (all_texts(items.drop_last()), as_text(items.last())) {
            (Some(front), Some(text)) => Some(front.push(text)),
            _ => None,
        }
    }
}

/// A list of names, apart from tags; null stands for none, a tagged null for the empty list.
pub open spec fn as_names(value: YamlView) -> Option<Option<Seq<Seq<char>>>> {
    if value is Null {
        Some(None)
    } else {
        match untagged(value) {
            YamlView::Sequence(items) => match all_texts(items) {
                Some(names) => Some(Some(names)),
                None => None,
            },
            YamlView::Null => Some(Some(Seq::empty())),
            _ => None,
        }
    }
}

/// An isolate declaration: a flag or a label, without tags.
pub open spec fn as_isolate(value: YamlView) -> Option<IsolateView> {
    match value {
        YamlView::Bool(flag) => Some(IsolateView::Flag(flag)),
        YamlView::Text(label) => Some(IsolateView::Label(label)),
        _ => None,
    }
}

/// The isolate declarations of a mapping, if all pairs are such.
pub open spec fn all_isolates(pairs: Seq<(YamlView, YamlView)>) -> Option<
    Seq<(Seq<char>, IsolateView)>,
>
    decreases pairs.len(),
{
    if pairs.len() == 0 {
        Some(Seq::empty())
    } else {
        match (
            all_isolates(pairs.drop_last()),
            as_text(pairs.last().0),
            as_isolate(pairs.last().1),
        ) {
            (Some(front), Some(name), Some(declared)) => Some(assign(front, name, declared)),
            _ => None,
        }
    }
}

/// Isolate declarations, apart from tags; null stands for none, a tagged null for no declaration.
pub open spec fn as_isolates(value: YamlView) -> Option<Option<Seq<(Seq<char>, IsolateView)>>> {
    if value is Null {
        Some(None)
    } else {
        match untagged(value) {
            YamlView::Mapping(pairs) => match all_isolates(pairs) {
                Some(isolates) => Some(Some(isolates)),
                None => None,
            },
            YamlView::Null => Some(Some(Seq::empty())),
            _ => None,
        }
    }
}

/// Whether no part of a value is tagged.
pub open spec fn tagless(value: YamlView) -> bool
    decreases value,
{
    match value {
        YamlView::Tagged(_, _) => false,
        YamlView::Sequence(items) => forall|i: int| 0 <= i < items.len() ==> tagless(
            #[trigger] items[i],
        ),
        YamlView::Mapping(pairs) => forall|i: int|
            0 <= i < pairs.len() ==> tagless((#[trigger] pairs[i]).0) && tagless(pairs[i].1),
        _ => true,
    }
}

/// The fields that were read so far; `None` where a field did not occur.
pub struct DraftView {
    pub id: Option<Seq<char>>,
    pub name: Option<Seq<char>>,
    pub config: Option<Option<YamlView>>,
    pub group: Option<Option<bool>>,
    pub disabled: Option<Option<bool>>,
    pub inject: Option<Option<Seq<Seq<char>>>>,
    pub isolate: Option<Option<Seq<(Seq<char>, IsolateView)>>>,
    pub intercept: Option<Option<YamlView>>,
    pub extra: Seq<(Seq<char>, YamlView)>,
}

/// No field was read.
pub open spec fn empty_draft() -> DraftView {
    DraftView {
        id: None,
        name: None,
        config: None,
        group: None,
        disabled: None,
        inject: None,
        isolate: None,
        intercept: None,
        extra: Seq::empty(),
    }
}

/// A field that occurs for the first time with a value that can be read.
pub open spec fn once<A>(before: Option<A>, read: Option<A>) -> Option<Option<A>> {
    if before is None && read is Some {
        Some(read)
    } else {
        None
    }
}

/// The draft after one more pair, or none where the pair is wrong: a key that is no text, a field
/// for the second time, a value of the wrong kind, a tag in a further key.
pub open spec fn draft_step(d: DraftView, key: YamlView, value: YamlView) -> Option<DraftView> {
    match as_text(key) {
        None => None,
        Some(k) => if k == "id"@ {
            match once(d.id, as_text(value)) {
                Some(id) => Some(DraftView { id, ..d }),
                None => None,
            }
        } else if k == "name"@ {
            match once(d.name, as_text(value)) {
                Some(name) => Some(DraftView { name, ..d }),
                None => None,
            }
        } else if k == "config"@ {
            match once(d.config, Some(as_any(value))) {
                Some(config) => Some(DraftView { config, ..d }),
                None => None,
            }
        } else if k == "group"@ {
            match once(d.group, as_flag(value)) {
                Some(group) => Some(DraftView { group, ..d }),
                None => None,
            }
        } else if k == "disabled"@ {
            match once(d.disabled, as_flag(value)) {
                Some(disabled) => Some(DraftView { disabled, ..d }),
                None => None,
            }
        } else if k == "inject"@ {
            match once(d.inject, as_names(value)) {
                Some(inject) => Some(DraftView { inject, ..d }),
                None => None,
            }
        } else if k == "isolate"@ {
            match once(d.isolate, as_isolates(value)) {
                Some(isolate) => Some(DraftView { isolate, ..d }),
                None => None,
            }
        } else if k == "intercept"@ {
            match once(d.intercept, Some(as_any(value))) {
                Some(intercept) => Some(DraftView { intercept, ..d }),
                None => None,
            }
        } else if tagless(value) {
            Some(DraftView { extra: assign(d.extra, k, value), ..d })
        } else {
            None
        },
    }
}

/// The draft of a mapping.
pub open spec fn draft_of(pairs: Seq<(YamlView, YamlView)>) -> Option<DraftView>
    decreases pairs.len(),
{
    if pairs.len() == 0 {
        Some(empty_draft())
    } else {
        match draft_of(pairs.drop_last()) {
            Some(d) => draft_step(d, pairs.last().0, pairs.last().1),
            None => None,
        }
    }
}

/// The options of a finished draft: `id` and `name` must have occurred.
pub open spec fn options_of_draft(d: DraftView) -> Option<OptionsView> {
    if d.id is Some && d.name is Some {
        Some(
            OptionsView {
                id: d.id->0,
                name: d.name->0,
                config: value_or(d.config, None),
                group: value_or(d.group, None),
                disabled: value_or(d.disabled, None),
                inject: value_or(d.inject, None),
                isolate: value_or(d.isolate, None),
                intercept: value_or(d.intercept, None),
                extra: d.extra,
            },
        )
    } else {
        None
    }
}

/// The options that a value stands for, if it does.
pub open spec fn options_of(value: YamlView) -> Option<OptionsView> {
    match untagged(value) {
        YamlView::Mapping(pairs) => match draft_of(pairs) {
            Some(d) => options_of_draft(d),
            None => None,
        },
        _ => None,
    }
}

/// The options of a list of values, if all stand for options.
pub open spec fn all_options(items: Seq<YamlView>) -> Option<Seq<OptionsView>>
    decreases items.len(),
{
    if items.len() == 0 {
        Some(Seq::empty())
    } else {
        match (all_options(items.drop_last()), options_of(items.last())) {
            (Some(front), Some(options)) => Some(front.push(options)),
            _ => None,
        }
    }
}

/// The list of options that a value stands for, if it does; null stands for the empty list.
pub open spec fn options_list_of(value: YamlView) -> Option<Seq<OptionsView>> {
    match untagged(value) {
        YamlView::Null => Some(Seq::empty()),
        YamlView::Sequence(items) => all_options(items),
        _ => None,
    }
}

/// `inserted`, where there is a value.
pub open spec fn inserted_option(
    pairs: Seq<(YamlView, YamlView)>,
    key: Seq<char>,
    value: Option<YamlView>,
) -> Seq<(YamlView, YamlView)> {
    match value {
        Some(v) => inserted(pairs, YamlView::Text(key), v),
        None => pairs,
    }
}

/// Options as a mapping: the fields in their order, those without a value left out, then the
/// further keys.
pub open spec fn encoded_pairs(options: OptionsView) -> Seq<(YamlView, YamlView)> {
    let a = inserted_option(head_pairs(options), "config"@, options.config);
    let b = inserted_option(a, "group"@, flag_value(options.group));
    let c = inserted_option(b, "disabled"@, flag_value(options.disabled));
    let d = inserted_option(c, "inject"@, inject_value(options.inject));
    let e = inserted_option(d, "isolate"@, isolate_option_value(options.isolate));
    let f = inserted_option(e, "intercept"@, options.intercept);
    inserted_all(f, options.extra)
}

/// A list of options as a value.
pub open spec fn encoded_list(list: Seq<OptionsView>) -> YamlView {
    YamlView::Sequence(Seq::new(list.len(), |i: int| YamlView::Mapping(encoded_pairs(list[i]))))
}

/// The value without its tags.
fn without_tags(value: &Yaml) -> (r: &Yaml)
    ensures
        r@ == untagged(value@),
        !(r is Tagged),
    decreases value,
{
    proof {
        lemma_value_view(value);
    }
    match value {
        Yaml::Tagged(tagged) => without_tags(&tagged.value),
        _ => value,
    }
}

/// Whether no part of a value is tagged.
pub fn is_tagless(value: &Yaml) -> (r: bool)
    ensures
        r == tagless(value@),
    decreases value,
{
    proof {
        lemma_value_view(value);
    }
    match value {
        Yaml::Tagged(_) => false,
        Yaml::Sequence(items) => {
            let mut i: usize = 0;
            while i < items.len()
                invariant
                    i <= items@.len(),
                    value@ == YamlView::Sequence(value_views(items@)),
                    forall|j: int| 0 <= j < i ==> tagless(#[trigger] value_views(items@)[j]),
                    decreases_to!(value => items),
                decreases items@.len() - i,
            {
                if !is_tagless(&items[i]) {
                    assert(!tagless(value@->Sequence_0[i as int]));
                    assert(!tagless(value@));
                    return false;
                }
                i += 1;
            }
            true
        },
        Yaml::Mapping(mapping) => {
            let mut i: usize = 0;
            while i < mapping.len()
                invariant
                    i <= mapping@.len(),
                    value@ == YamlView::Mapping(mapping@),
                    forall|j: int|
                        0 <= j < i ==> tagless((#[trigger] mapping@[j]).0) && tagless(
                            mapping@[j].1,
                        ),
                    decreases_to!(value => mapping),
                decreases mapping@.len() - i,
            {
                if !is_tagless(mapping.key_at(i)) || !is_tagless(mapping.value_at(i)) {
                    let ghost pair = value@->Mapping_0[i as int];
                    assert(!(tagless(pair.0) && tagless(pair.1)));
                    assert(!tagless(value@));
                    return false;
                }
                i += 1;
            }
            true
        },
        _ => true,
    }
}

fn read_text(value: &Yaml) -> (r: Option<String>)
    ensures
        text_option(r) == as_text(value@),
{
    match text_under_tags(value) {
        Some(text) => Some(text.clone()),
        None => None,
    }
}

fn read_flag(value: &Yaml) -> (r: Option<Option<bool>>)
    ensures
        r == as_flag(value@),
{
    proof {
        lemma_value_view(value);
    }
    if let Yaml::Null = value {
        return Some(None);
    }
    let bare = without_tags(value);
    proof {
        lemma_value_view(bare);
    }
    match bare {
        Yaml::Bool(flag) => Some(Some(*flag)),
        _ => None,
    }
}

fn read_any(value: &Yaml) -> (r: Option<Yaml>)
    ensures
        option_view(r) == as_any(value@),
{
    proof {
        lemma_value_view(value);
    }
    match value {
        Yaml::Null => None,
        _ => Some(value.clone()),
    }
}

proof fn lemma_no_texts(items: Seq<YamlView>, n: int)
    requires
        0 <= n <= items.len(),
        all_texts(items.take(n)) is None,
    ensures
        all_texts(items) is None,
    decreases items.len(),
{
    if n < items.len() {
        assert(items.drop_last().take(n) =~= items.take(n));
        lemma_no_texts(items.drop_last(), n);
    } else {
        assert(items.take(n) =~= items);
    }
}

/// The view of a read list of names.
spec fn names_read(r: Option<Option<Vec<String>>>) -> Option<Option<Seq<Seq<char>>>> {
    match r {
        Some(list) => Some(texts_option(list)),
        None => None,
    }
}

fn read_names(value: &Yaml) -> (r: Option<Option<Vec<String>>>)
    ensures
        names_read(r) == as_names(value@),
{
    proof {
        lemma_value_view(value);
    }
    if let Yaml::Null = value {
        return Some(None);
    }
    let bare = without_tags(value);
    proof {
        lemma_value_view(bare);
    }
    match bare {
        Yaml::Sequence(items) => {
            let ghost all = value_views(items@);
            let mut out: Vec<String> = Vec::new();
            let mut i: usize = 0;
            assert(all.take(0) =~= Seq::<YamlView>::empty());
            assert(texts(out@) =~= Seq::<Seq<char>>::empty());
            while i < items.len()
                invariant
                    i <= items@.len(),
                    all == value_views(items@),
                    untagged(value@) == YamlView::Sequence(all),
                    !(value@ is Null),
                    all_texts(all.take(i as int)) == Some(texts(out@)),
                decreases items@.len() - i,
            {
                assert(all.take(i + 1).drop_last() =~= all.take(i as int));
                match read_text(&items[i]) {
                    Some(text) => {
                        let ghost before = texts(out@);
                        let ghost added = text@;
                        out.push(text);
                        assert(texts(out@) =~= before.push(added));
                    },
                    None => {
                        proof {
                            lemma_no_texts(all, i + 1);
                        }
                        return None;
                    },
                }
                i += 1;
            }
            assert(all.take(i as int) =~= all);
            Some(Some(out))
        },
        Yaml::Null => {
            let none: Vec<String> = Vec::new();
            assert(texts(none@) =~= Seq::<Seq<char>>::empty());
            Some(Some(none))
        },
        _ => None,
    }
}

proof fn lemma_no_isolates(pairs: Seq<(YamlView, YamlView)>, n: int)
    requires
        0 <= n <= pairs.len(),
        all_isolates(pairs.take(n)) is None,
    ensures
        all_isolates(pairs) is None,
    decreases pairs.len(),
{
    if n < pairs.len() {
        assert(pairs.drop_last().take(n) =~= pairs.take(n));
        lemma_no_isolates(pairs.drop_last(), n);
    } else {
        assert(pairs.take(n) =~= pairs);
    }
}

/// The view of read isolate declarations.
spec fn isolates_read(r: Option<Option<Dict<IsolateValue>>>) -> Option<
    Option<Seq<(Seq<char>, IsolateView)>>,
> {
    match r {
        Some(isolates) => Some(dict_option(isolates)),
        None => None,
    }
}

fn read_isolate(value: &Yaml) -> (r: Option<IsolateValue>)
    ensures
        match r {
            Some(declared) => as_isolate(value@) == Some(declared@),
            None => as_isolate(value@) is None,
        },
{
    proof {
        lemma_value_view(value);
    }
    match value {
        Yaml::Bool(flag) => Some(IsolateValue::Flag(*flag)),
        Yaml::Text(label) => Some(IsolateValue::Label(label.clone())),
        _ => None,
    }
}

fn read_isolates(value: &Yaml) -> (r: Option<Option<Dict<IsolateValue>>>)
    ensures
        isolates_read(r) == as_isolates(value@),
{
    proof {
        lemma_value_view(value);
    }
    if let Yaml::Null = value {
        return Some(None);
    }
    let bare = without_tags(value);
    proof {
        lemma_value_view(bare);
    }
    match bare {
        Yaml::Mapping(mapping) => {
            let ghost all = mapping@;
            let mut out: Dict<IsolateValue> = Dict::new();
            let mut i: usize = 0;
            assert(all.take(0) =~= Seq::<(YamlView, YamlView)>::empty());
            while i < mapping.len()
                invariant
                    i <= mapping@.len(),
                    all == mapping@,
                    untagged(value@) == YamlView::Mapping(all),
                    !(value@ is Null),
                    all_isolates(all.take(i as int)) == Some(out@),
                decreases mapping@.len() - i,
            {
                assert(all.take(i + 1).drop_last() =~= all.take(i as int));
                match (read_text(mapping.key_at(i)), read_isolate(mapping.value_at(i))) {
                    (Some(name), Some(declared)) => {
                        out.insert(name, declared);
                    },
                    _ => {
                        proof {
                            lemma_no_isolates(all, i + 1);
                        }
                        return None;
                    },
                }
                i += 1;
            }
            assert(all.take(i as int) =~= all);
            Some(Some(out))
        },
        Yaml::Null => Some(Some(Dict::new())),
        _ => None,
    }
}

/// The fields that were read so far.
struct Draft {
    id: Option<String>,
    name: Option<String>,
    config: Option<Option<Yaml>>,
    group: Option<Option<bool>>,
    disabled: Option<Option<bool>>,
    inject: Option<Option<Vec<String>>>,
    isolate: Option<Option<Dict<IsolateValue>>>,
    intercept: Option<Option<Yaml>>,
    extra: Dict<Yaml>,
}

spec fn any_read(r: Option<Option<Yaml>>) -> Option<Option<YamlView>> {
    match r {
        Some(value) => Some(option_view(value)),
        None => None,
    }
}

impl View for Draft {
    type V = DraftView;

    closed spec fn view(&self) -> DraftView {
        DraftView {
            id: text_option(self.id),
            name: text_option(self.name),
            config: any_read(self.config),
            group: self.group,
            disabled: self.disabled,
            inject: names_read(self.inject),
            isolate: isolates_read(self.isolate),
            intercept: any_read(self.intercept),
            extra: self.extra@,
        }
    }
}

impl Draft {
    /// Takes up one more pair; says whether it could be read.
    fn step(&mut self, key: &Yaml, value: &Yaml) -> (r: bool)
        ensures
            match draft_step(old(self)@, key@, value@) {
                Some(d) => r && final(self)@ == d,
                None => !r,
            },
    {
        let k = match text_under_tags(key) {
            Some(k) => k,
            None => {
                return false;
            },
        };
        let k = k.as_str();
        if same_text(k, "id") {
            let read = read_text(value);
            if self.id.is_some() || read.is_none() {
                return false;
            }
            self.id = read;
        } else if same_text(k, "name") {
            let read = read_text(value);
            if self.name.is_some() || read.is_none() {
                return false;
            }
            self.name = read;
        } else if same_text(k, "config") {
            if self.config.is_some() {
                return false;
            }
            self.config = Some(read_any(value));
        } else if same_text(k, "group") {
            let read = read_flag(value);
            if self.group.is_some() || read.is_none() {
                return false;
            }
            self.group = read;
        } else if same_text(k, "disabled") {
            let read = read_flag(value);
            if self.disabled.is_some() || read.is_none() {
                return false;
            }
            self.disabled = read;
        } else if same_text(k, "inject") {
            let read = read_names(value);
            if self.inject.is_some() || read.is_none() {
                return false;
            }
            self.inject = read;
        } else if same_text(k, "isolate") {
            let read = read_isolates(value);
            if self.isolate.is_some() || read.is_none() {
                return false;
            }
            self.isolate = read;
        } else if same_text(k, "intercept") {
            if self.intercept.is_some() {
                return false;
            }
            self.intercept = Some(read_any(value));
        } else {
            if !is_tagless(value) {
                return false;
            }
            self.extra.insert(k.to_owned(), value.clone());
        }
        true
    }
}

proof fn lemma_no_draft(pairs: Seq<(YamlView, YamlView)>, n: int)
    requires
        0 <= n <= pairs.len(),
        draft_of(pairs.take(n)) is None,
    ensures
        draft_of(pairs) is None,
    decreases pairs.len(),
{
    if n < pairs.len() {
        assert(pairs.drop_last().take(n) =~= pairs.take(n));
        lemma_no_draft(pairs.drop_last(), n);
    } else {
        assert(pairs.take(n) =~= pairs);
    }
}

/// The view of optional options.
pub open spec fn options_option(r: Option<EntryOptions>) -> Option<OptionsView> {
    match r {
        Some(options) => Some(options@),
        None => None,
    }
}

/// The options that a value stands for, if it does.
pub fn decode_options(value: &Yaml) -> (r: Option<EntryOptions>)
    ensures
        options_option(r) == options_of(value@),
{
    let bare = without_tags(value);
    proof {
        lemma_value_view(bare);
    }
    if let Yaml::Mapping(mapping) = bare {
        let ghost all = mapping@;
        let mut draft = Draft {
            id: None,
            name: None,
            config: None,
            group: None,
            disabled: None,
            inject: None,
            isolate: None,
            intercept: None,
            extra: Dict::new(),
        };
        let mut i: usize = 0;
        assert(all.take(0) =~= Seq::<(YamlView, YamlView)>::empty());
        while i < mapping.len()
            invariant
                i <= mapping@.len(),
                all == mapping@,
                untagged(value@) == YamlView::Mapping(all),
                draft_of(all.take(i as int)) == Some(draft@),
            decreases mapping@.len() - i,
        {
            assert(all.take(i + 1).drop_last() =~= all.take(i as int));
            if !draft.step(mapping.key_at(i), mapping.value_at(i)) {
                proof {
                    lemma_no_draft(all, i + 1);
                }
                return None;
            }
            i += 1;
        }
        assert(all.take(i as int) =~= all);
        match (draft.id, draft.name) {
            (Some(id), Some(name)) => Some(
                EntryOptions {
                    id,
                    name,
                    config: match draft.config {
                        Some(config) => config,
                        None => None,
                    },
                    group: match draft.group {
                        Some(group) => group,
                        None => None,
                    },
                    disabled: match draft.disabled {
                        Some(disabled) => disabled,
                        None => None,
                    },
                    inject: match draft.inject {
                        Some(inject) => inject,
                        None => None,
                    },
                    isolate: match draft.isolate {
                        Some(isolate) => isolate,
                        None => None,
                    },
                    intercept: match draft.intercept {
                        Some(intercept) => intercept,
                        None => None,
                    },
                    extra: draft.extra,
                },
            ),
            _ => None,
        }
    } else {
        None
    }
}

proof fn lemma_no_options(items: Seq<YamlView>, n: int)
    requires
        0 <= n <= items.len(),
        all_options(items.take(n)) is None,
    ensures
        all_options(items) is None,
    decreases items.len(),
{
    if n < items.len() {
        assert(items.drop_last().take(n) =~= items.take(n));
        lemma_no_options(items.drop_last(), n);
    } else {
        assert(items.take(n) =~= items);
    }
}

/// The view of an optional list of options.
pub open spec fn options_list_option(r: Option<Vec<EntryOptions>>) -> Option<Seq<OptionsView>> {
    match r {
        Some(list) => Some(options_views(list@)),
        None => None,
    }
}

/// The list of options that a value stands for, if it does.
pub fn decode_list(value: &Yaml) -> (r: Option<Vec<EntryOptions>>)
    ensures
        options_list_option(r) == options_list_of(value@),
{
    let bare = without_tags(value);
    proof {
        lemma_value_view(bare);
    }
    match bare {
        Yaml::Null => {
            let none: Vec<EntryOptions> = Vec::new();
            assert(options_views(none@) =~= Seq::<OptionsView>::empty());
            Some(none)
        },
        Yaml::Sequence(items) => {
            let ghost all = value_views(items@);
            let mut out: Vec<EntryOptions> = Vec::new();
            let mut i: usize = 0;
            assert(all.take(0) =~= Seq::<YamlView>::empty());
            assert(options_views(out@) =~= Seq::<OptionsView>::empty());
            while i < items.len()
                invariant
                    i <= items@.len(),
                    all == value_views(items@),
                    untagged(value@) == YamlView::Sequence(all),
                    all_options(all.take(i as int)) == Some(options_views(out@)),
                decreases items@.len() - i,
            {
                assert(all.take(i + 1).drop_last() =~= all.take(i as int));
                match decode_options(&items[i]) {
                    Some(options) => {
                        let ghost before = options_views(out@);
                        let ghost added = options@;
                        out.push(options);
                        assert(options_views(out@) =~= before.push(added));
                    },
                    None => {
                        proof {
                            lemma_no_options(all, i + 1);
                        }
                        return None;
                    },
                }
                i += 1;
            }
            assert(all.take(i as int) =~= all);
            Some(out)
        },
        _ => None,
    }
}

/// Puts a flag under `key`, where there is one.
fn insert_flag(mapping: &mut Mapping, key: &str, flag: Option<bool>)
    ensures
        final(mapping)@ == inserted_option(old(mapping)@, key@, flag_value(flag)),
{
    if let Some(flag) = flag {
        mapping.insert(Yaml::text(key), Yaml::flag(flag));
    }
}

/// Options as a value.
pub fn encode_options(options: &EntryOptions) -> (r: Yaml)
    ensures
        r@ == YamlView::Mapping(encoded_pairs(options@)),
{
    let mut mapping = Mapping::new();
    mapping.insert(Yaml::text("id"), Yaml::text(options.id.as_str()));
    mapping.insert(Yaml::text("name"), Yaml::text(options.name.as_str()));
    if let Some(config) = &options.config {
        mapping.insert(Yaml::text("config"), config.clone());
    }
    insert_flag(&mut mapping, "group", options.group);
    insert_flag(&mut mapping, "disabled", options.disabled);
    if let Some(inject) = &options.inject {
        mapping.insert(Yaml::text("inject"), names_to_yaml(inject));
    }
    if let Some(isolate) = &options.isolate {
        mapping.insert(Yaml::text("isolate"), isolates_to_yaml(isolate));
    }
    if let Some(intercept) = &options.intercept {
        mapping.insert(Yaml::text("intercept"), intercept.clone());
    }
    let ghost start = mapping@;
    let ghost all = options.extra@;
    let mut i: usize = 0;
    assert(all.take(0) =~= Seq::<(Seq<char>, YamlView)>::empty());
    while i < options.extra.len()
        invariant
            i <= all.len(),
            all == options.extra@,
            mapping@ == inserted_all(start, all.take(i as int)),
        decreases all.len() - i,
    {
        assert(all.take(i + 1).drop_last() =~= all.take(i as int));
        mapping.insert(
            Yaml::text(options.extra.key_at(i).as_str()),
            options.extra.value_at(i).clone(),
        );
        i += 1;
    }
    assert(all.take(i as int) =~= all);
    Yaml::mapping(mapping)
}

/// A list of options as a value.
pub fn encode_list(list: &Vec<EntryOptions>) -> (r: Yaml)
    ensures
        r@ == encoded_list(options_views(list@)),
{
    let mut out: Vec<Yaml> = Vec::new();
    let mut i: usize = 0;
    while i < list.len()
        invariant
            i <= list@.len(),
            out@.len() == i,
            forall|j: int|
                0 <= j < i ==> (#[trigger] out@[j])@ == YamlView::Mapping(
                    encoded_pairs(list@[j]@),
                ),
        decreases list@.len() - i,
    {
        out.push(encode_options(&list[i]));
        i += 1;
    }
    assert(value_views(out@) =~= encoded_list(options_views(list@))->Sequence_0);
    Yaml::list(out)
}

} // verus!
