//! The options of an entry, and partial updates of them.

use crate::dict::{lookup, same_dict, Dict, Duplicate};
use crate::text::{clone_texts, same_text, same_texts, texts};
use crate::value::{option_view, same_option, Yaml, YamlView};
use vstd::prelude::*;

verus! {

/// An isolate declaration: `true` for a local realm, a string for a shared label.
pub enum IsolateValue {
    /// `true` creates a local realm named after the entry, `false` disables isolation.
    Flag(bool),
    /// A shared label.
    Label(String),
}

/// What an isolate declaration says.
pub enum IsolateView {
    Flag(bool),
    Label(Seq<char>),
}

impl View for IsolateValue {
    type V = IsolateView;

    open spec fn view(&self) -> IsolateView {
        match self {
            IsolateValue::Flag(flag) => IsolateView::Flag(*flag),
            IsolateValue::Label(label) => IsolateView::Label(label@),
        }
    }
}

impl Duplicate for IsolateValue {
    fn duplicate(&self) -> (r: Self) {
        match self {
            IsolateValue::Flag(flag) => IsolateValue::Flag(*flag),
            IsolateValue::Label(label) => IsolateValue::Label(label.clone()),
        }
    }
}

impl Duplicate for Yaml {
    fn duplicate(&self) -> (r: Self) {
        self.clone()
    }
}

impl IsolateValue {
    /// Whether two declarations say the same.
    pub fn same_as(&self, other: &IsolateValue) -> (r: bool)
        ensures
            r == (self@ == other@),
    {
        match (self, other) {
            (IsolateValue::Flag(a), IsolateValue::Flag(b)) => *a == *b,
            (IsolateValue::Label(a), IsolateValue::Label(b)) => *a == *b,
            _ => false,
        }
    }
}

/// The options of a single entry.
pub struct EntryOptions {
    /// Stable entry id.
    pub id: String,
    /// Plugin name (or `cordis:` builtin).
    pub name: String,
    /// Plugin config.
    pub config: Option<Yaml>,
    /// Whether this entry is a group.
    pub group: Option<bool>,
    /// Whether this entry is disabled.
    pub disabled: Option<bool>,
    /// Declared inject dependencies.
    pub inject: Option<Vec<String>>,
    /// Per-service isolate scopes.
    pub isolate: Option<Dict<IsolateValue>>,
    /// Per-service intercept overrides.
    pub intercept: Option<Yaml>,
    /// Further keys, kept as they are.
    pub extra: Dict<Yaml>,
}

/// What the options of an entry are.
pub struct OptionsView {
    pub id: Seq<char>,
    pub name: Seq<char>,
    pub config: Option<YamlView>,
    pub group: Option<bool>,
    pub disabled: Option<bool>,
    pub inject: Option<Seq<Seq<char>>>,
    pub isolate: Option<Seq<(Seq<char>, IsolateView)>>,
    pub intercept: Option<YamlView>,
    pub extra: Seq<(Seq<char>, YamlView)>,
}

/// A partial update of an entry's options.
pub struct PartialEntryOptions {
    /// Stable entry id.
    pub id: Option<String>,
    /// Plugin name (or `cordis:` builtin).
    pub name: Option<String>,
    /// Plugin config.
    pub config: Option<Yaml>,
    /// Whether this entry is a group.
    pub group: Option<bool>,
    /// Whether this entry is disabled.
    pub disabled: Option<bool>,
    /// Declared inject dependencies.
    pub inject: Option<Vec<String>>,
    /// Per-service isolate scopes.
    pub isolate: Option<Dict<IsolateValue>>,
    /// Per-service intercept overrides.
    pub intercept: Option<Yaml>,
    /// Further keys, kept as they are.
    pub extra: Option<Dict<Yaml>>,
}

/// What a partial update says.
pub struct PartialView {
    pub id: Option<Seq<char>>,
    pub name: Option<Seq<char>>,
    pub config: Option<YamlView>,
    pub group: Option<bool>,
    pub disabled: Option<bool>,
    pub inject: Option<Seq<Seq<char>>>,
    pub isolate: Option<Seq<(Seq<char>, IsolateView)>>,
    pub intercept: Option<YamlView>,
    pub extra: Option<Seq<(Seq<char>, YamlView)>>,
}

/// The view of an optional text.
pub open spec fn text_option(text: Option<String>) -> Option<Seq<char>> {
    match text {
        Some(t) => Some(t@),
        None => None,
    }
}

/// The views of a list of optional texts.
pub open spec fn text_options(list: Seq<Option<String>>) -> Seq<Option<Seq<char>>> {
    Seq::new(list.len(), |i: int| text_option(list[i]))
}

/// The views of an optional list of texts.
pub open spec fn texts_option(list: Option<Vec<String>>) -> Option<Seq<Seq<char>>> {
    match list {
        Some(l) => Some(texts(l@)),
        None => None,
    }
}

/// The view of an optional dictionary.
pub open spec fn dict_option<T: View>(dict: Option<Dict<T>>) -> Option<Seq<(Seq<char>, T::V)>> {
    match dict {
        Some(d) => Some(d@),
        None => None,
    }
}

impl View for EntryOptions {
    type V = OptionsView;

    open spec fn view(&self) -> OptionsView {
        OptionsView {
            id: self.id@,
            name: self.name@,
            config: option_view(self.config),
            group: self.group,
            disabled: self.disabled,
            inject: texts_option(self.inject),
            isolate: dict_option(self.isolate),
            intercept: option_view(self.intercept),
            extra: self.extra@,
        }
    }
}

impl View for PartialEntryOptions {
    type V = PartialView;

    open spec fn view(&self) -> PartialView {
        PartialView {
            id: text_option(self.id),
            name: text_option(self.name),
            config: option_view(self.config),
            group: self.group,
            disabled: self.disabled,
            inject: texts_option(self.inject),
            isolate: dict_option(self.isolate),
            intercept: option_view(self.intercept),
            extra: dict_option(self.extra),
        }
    }
}

/// `value`, or `other` where there is none.
pub open spec fn value_or<A>(value: Option<A>, other: A) -> A {
    match value {
        Some(v) => v,
        None => other,
    }
}

/// `value`, or `other` where there is none.
pub open spec fn some_or<A>(value: Option<A>, other: Option<A>) -> Option<A> {
    match value {
        Some(v) => Some(v),
        None => other,
    }
}

impl OptionsView {
    /// The options after an update that leaves every field alone that it does not mention.
    pub open spec fn patched(self, update: PartialView) -> OptionsView {
        OptionsView {
            id: value_or(update.id, self.id),
            name: value_or(update.name, self.name),
            config: some_or(update.config, self.config),
            group: some_or(update.group, self.group),
            disabled: some_or(update.disabled, self.disabled),
            inject: some_or(update.inject, self.inject),
            isolate: some_or(update.isolate, self.isolate),
            intercept: some_or(update.intercept, self.intercept),
            extra: value_or(update.extra, self.extra),
        }
    }

    /// The options after an update that clears every field that it does not mention; id and name
    /// cannot be cleared.
    pub open spec fn replaced(self, update: PartialView) -> OptionsView {
        OptionsView {
            id: value_or(update.id, self.id),
            name: value_or(update.name, self.name),
            config: update.config,
            group: update.group,
            disabled: update.disabled,
            inject: update.inject,
            isolate: update.isolate,
            intercept: update.intercept,
            extra: value_or(update.extra, Seq::empty()),
        }
    }

    /// The update that sets every field to this one's.
    pub open spec fn as_partial(self) -> PartialView {
        PartialView {
            id: Some(self.id),
            name: Some(self.name),
            config: self.config,
            group: self.group,
            disabled: self.disabled,
            inject: self.inject,
            isolate: self.isolate,
            intercept: self.intercept,
            extra: Some(self.extra),
        }
    }

    /// The isolate declarations, none where the field is absent.
    pub open spec fn isolates(self) -> Seq<(Seq<char>, IsolateView)> {
        value_or(self.isolate, Seq::empty())
    }

    /// Whether the isolate declarations of two options differ.
    pub open spec fn isolate_differs(self, other: OptionsView) -> bool {
        match (self.isolate, other.isolate) {
            (Some(a), Some(b)) => !same_dict(a, b),
            (None, None) => false,
            _ => true,
        }
    }
}

impl PartialView {
    /// The options of a new entry: what the update mentions, with `id` and `name` to fall back on.
    pub open spec fn full(self, id: Seq<char>, name: Seq<char>) -> OptionsView {
        OptionsView {
            id: value_or(self.id, id),
            name: value_or(self.name, name),
            config: self.config,
            group: self.group,
            disabled: self.disabled,
            inject: self.inject,
            isolate: self.isolate,
            intercept: self.intercept,
            extra: value_or(self.extra, Seq::empty()),
        }
    }
}

/// `list` with `key` at the end where `changed` holds.
pub open spec fn push_if(list: Seq<Seq<char>>, changed: bool, key: Seq<char>) -> Seq<Seq<char>> {
    if changed {
        list.push(key)
    } else {
        list
    }
}

/// Whether the further keys of two options hold equal values.
pub open spec fn same_extra(a: Seq<(Seq<char>, YamlView)>, b: Seq<(Seq<char>, YamlView)>) -> bool {
    forall|key: Seq<char>| same_option(#[trigger] lookup(a, key), lookup(b, key))
}

/// The keys of the fields in which two options differ, in a fixed order.
pub open spec fn changed_fields(now: OptionsView, before: OptionsView) -> Seq<Seq<char>> {
    let a = push_if(Seq::empty(), !same_option(now.config, before.config), "config"@);
    let b = push_if(a, now.disabled != before.disabled, "disabled"@);
    let c = push_if(b, now.inject != before.inject, "inject"@);
    let d = push_if(c, now.name != before.name, "name"@);
    let e = push_if(d, now.isolate_differs(before), "isolate"@);
    let f = push_if(e, !same_option(now.intercept, before.intercept), "intercept"@);
    let g = push_if(f, now.id != before.id, "id"@);
    let h = push_if(g, now.group != before.group, "group"@);
    push_if(h, !same_extra(now.extra, before.extra), "extra"@)
}

/// Whether a change of a field reaches what runs: neither the id, nor whether an entry is a group,
/// nor the further keys do.
pub open spec fn reaches_fiber(key: Seq<char>) -> bool {
    key != "id"@ && key != "group"@ && key != "extra"@
}

/// Whether one of the changed fields reaches what runs.
pub open spec fn any_reaches_fiber(keys: Seq<Seq<char>>) -> bool {
    exists|i: int| 0 <= i < keys.len() && reaches_fiber(#[trigger] keys[i])
}

/// A copy of an optional text.
pub fn copy_text_option(text: &Option<String>) -> (r: Option<String>)
    ensures
        text_option(r) == text_option(*text),
{
    match text {
        Some(t) => Some(t.clone()),
        None => None,
    }
}

/// A copy of an optional value.
pub fn copy_yaml_option(value: &Option<Yaml>) -> (r: Option<Yaml>)
    ensures
        option_view(r) == option_view(*value),
{
    match value {
        Some(v) => Some(v.clone()),
        None => None,
    }
}

/// A copy of an optional list of texts.
pub fn copy_texts_option(list: &Option<Vec<String>>) -> (r: Option<Vec<String>>)
    ensures
        texts_option(r) == texts_option(*list),
{
    match list {
        Some(l) => Some(clone_texts(l)),
        None => None,
    }
}

/// A copy of an optional dictionary.
pub fn copy_dict_option<T: Duplicate>(dict: &Option<Dict<T>>) -> (r: Option<Dict<T>>)
    ensures
        dict_option(r) == dict_option(*dict),
{
    match dict {
        Some(d) => Some(d.duplicate()),
        None => None,
    }
}

/// Whether two optional values are equal.
pub fn same_yaml_option(a: &Option<Yaml>, b: &Option<Yaml>) -> (r: bool)
    ensures
        r == same_option(option_view(*a), option_view(*b)),
{
    match (a, b) {
        (Some(x), Some(y)) => x.same_as(y),
        (None, None) => true,
        _ => false,
    }
}

/// Whether everything that `a` declares is declared the same by `b`.
fn isolate_within(a: &Dict<IsolateValue>, b: &Dict<IsolateValue>) -> (r: bool)
    ensures
        r == forall|key: Seq<char>|
            (#[trigger] lookup(a@, key)) is Some ==> lookup(a@, key) == lookup(b@, key),
{
    a.keys_are_distinct();
    let mut i: usize = 0;
    while i < a.len()
        invariant
            i <= a@.len(),
            crate::dict::distinct(a@),
            forall|j: int| 0 <= j < i ==> lookup(b@, (#[trigger] a@[j]).0) == Some(a@[j].1),
        decreases a@.len() - i,
    {
        let found = match b.get(a.key_at(i).as_str()) {
            Some(value) => value.same_as(a.value_at(i)),
            None => false,
        };
        if !found {
            proof {
                crate::dict::lemma_lookup_at(a@, i as int);
                assert(lookup(a@, a@[i as int].0) is Some);
            }
            return false;
        }
        i += 1;
    }
    assert forall|key: Seq<char>| (#[trigger] lookup(a@, key)) is Some implies lookup(a@, key)
        == lookup(b@, key) by {
        crate::dict::lemma_place(a@, key);
        assert(lookup(b@, a@[crate::dict::place(a@, key)].0) is Some);
    }
    true
}

/// Whether two dictionaries of isolate declarations are equal.
pub fn same_isolates(a: &Dict<IsolateValue>, b: &Dict<IsolateValue>) -> (r: bool)
    ensures
        r == same_dict(a@, b@),
{
    let within = isolate_within(a, b);
    let around = isolate_within(b, a);
    if within && around {
        assert forall|key: Seq<char>| #[trigger] lookup(a@, key) == lookup(b@, key) by {
            if lookup(a@, key) is None && lookup(b@, key) is Some {
                assert(lookup(b@, key) == lookup(a@, key));
            }
        }
    }
    within && around
}

/// Whether the further keys of two options hold equal values.
fn same_extras(a: &Dict<Yaml>, b: &Dict<Yaml>) -> (r: bool)
    ensures
        r == same_extra(a@, b@),
{
    a.keys_are_distinct();
    b.keys_are_distinct();
    let mut i: usize = 0;
    while i < a.len()
        invariant
            i <= a@.len(),
            crate::dict::distinct(a@),
            forall|j: int|
                0 <= j < i ==> same_option(Some((#[trigger] a@[j]).1), lookup(b@, a@[j].0)),
        decreases a@.len() - i,
    {
        let found = match b.get(a.key_at(i).as_str()) {
            Some(value) => a.value_at(i).same_as(value),
            None => false,
        };
        if !found {
            proof {
                crate::dict::lemma_lookup_at(a@, i as int);
                assert(!same_option(lookup(a@, a@[i as int].0), lookup(b@, a@[i as int].0)));
            }
            return false;
        }
        i += 1;
    }
    let mut k: usize = 0;
    while k < b.len()
        invariant
            k <= b@.len(),
            crate::dict::distinct(b@),
            forall|j: int| 0 <= j < k ==> lookup(a@, (#[trigger] b@[j]).0) is Some,
        decreases b@.len() - k,
    {
        if !a.contains_key(b.key_at(k).as_str()) {
            proof {
                crate::dict::lemma_lookup_at(b@, k as int);
                assert(!same_option(lookup(a@, b@[k as int].0), lookup(b@, b@[k as int].0)));
            }
            return false;
        }
        k += 1;
    }
    assert forall|key: Seq<char>| same_option(#[trigger] lookup(a@, key), lookup(b@, key)) by {
        crate::dict::lemma_place(a@, key);
        crate::dict::lemma_place(b@, key);
        if lookup(a@, key) is Some {
            assert(a@[crate::dict::place(a@, key)].0 == key);
        } else if lookup(b@, key) is Some {
            assert(b@[crate::dict::place(b@, key)].0 == key);
        }
    }
    true
}

/// Whether one of the changed fields reaches what runs.
pub fn reaches_running(keys: &Vec<String>) -> (r: bool)
    ensures
        r == any_reaches_fiber(texts(keys@)),
{
    let ghost all = texts(keys@);
    let mut i: usize = 0;
    while i < keys.len()
        invariant
            i <= keys@.len(),
            all == texts(keys@),
            forall|j: int| 0 <= j < i ==> !reaches_fiber(#[trigger] all[j]),
        decreases keys@.len() - i,
    {
        let key = keys[i].as_str();
        if !same_text(key, "id") && !same_text(key, "group") && !same_text(key, "extra") {
            assert(reaches_fiber(all[i as int]));
            return true;
        }
        i += 1;
    }
    false
}

impl Duplicate for EntryOptions {
    fn duplicate(&self) -> (r: Self) {
        EntryOptions {
            id: self.id.clone(),
            name: self.name.clone(),
            config: copy_yaml_option(&self.config),
            group: self.group,
            disabled: self.disabled,
            inject: copy_texts_option(&self.inject),
            isolate: copy_dict_option(&self.isolate),
            intercept: copy_yaml_option(&self.intercept),
            extra: self.extra.duplicate(),
        }
    }
}

impl Clone for EntryOptions {
    fn clone(&self) -> (r: Self)
        ensures
            r@ == self@,
    {
        self.duplicate()
    }
}

impl Default for EntryOptions {
    fn default() -> (r: Self)
        ensures
            r@ == (OptionsView {
                id: Seq::empty(),
                name: Seq::empty(),
                config: None,
                group: None,
                disabled: None,
                inject: None,
                isolate: None,
                intercept: None,
                extra: Seq::empty(),
            }),
    {
        EntryOptions {
            id: String::new(),
            name: String::new(),
            config: None,
            group: None,
            disabled: None,
            inject: None,
            isolate: None,
            intercept: None,
            extra: Dict::new(),
        }
    }
}

impl EntryOptions {
    /// The keys of the fields in which these options differ from `legacy`.
    pub fn diff(&self, legacy: &EntryOptions) -> (r: Vec<String>)
        ensures
            texts(r@) == changed_fields(self@, legacy@),
    {
        let mut changed: Vec<String> = Vec::new();
        assert(texts(changed@) =~= Seq::<Seq<char>>::empty());
        let inject_same = match (&self.inject, &legacy.inject) {
            (Some(a), Some(b)) => same_texts(a, b),
            (None, None) => true,
            _ => false,
        };
        let isolate_same = match (&self.isolate, &legacy.isolate) {
            (Some(a), Some(b)) => same_isolates(a, b),
            (None, None) => true,
            _ => false,
        };
        note_change(&mut changed, !same_yaml_option(&self.config, &legacy.config), "config");
        note_change(&mut changed, !same_flag(self.disabled, legacy.disabled), "disabled");
        note_change(&mut changed, !inject_same, "inject");
        note_change(&mut changed, self.name != legacy.name, "name");
        note_change(&mut changed, !isolate_same, "isolate");
        note_change(
            &mut changed,
            !same_yaml_option(&self.intercept, &legacy.intercept),
            "intercept",
        );
        note_change(&mut changed, self.id != legacy.id, "id");
        note_change(&mut changed, !same_flag(self.group, legacy.group), "group");
        note_change(&mut changed, !same_extras(&self.extra, &legacy.extra), "extra");
        changed
    }
}

/// Adds the key of a field that differs.
fn note_change(changed: &mut Vec<String>, differs: bool, key: &str)
    ensures
        texts(final(changed)@) == push_if(texts(old(changed)@), differs, key@),
{
    let ghost before = texts(changed@);
    if differs {
        changed.push(key.to_owned());
        assert(texts(changed@) =~= before.push(key@));
    }
}

/// Whether two optional flags are equal.
pub fn same_flag(a: Option<bool>, b: Option<bool>) -> (r: bool)
    ensures
        r == (a == b),
{
    match (a, b) {
        (Some(x), Some(y)) => x == y,
        (None, None) => true,
        _ => false,
    }
}

/// Whether an optional flag is set and true.
pub fn is_true(flag: Option<bool>) -> (r: bool)
    ensures
        r == (flag == Some(true)),
{
    match flag {
        Some(f) => f,
        None => false,
    }
}

impl Duplicate for PartialEntryOptions {
    fn duplicate(&self) -> (r: Self) {
        PartialEntryOptions {
            id: copy_text_option(&self.id),
            name: copy_text_option(&self.name),
            config: copy_yaml_option(&self.config),
            group: self.group,
            disabled: self.disabled,
            inject: copy_texts_option(&self.inject),
            isolate: copy_dict_option(&self.isolate),
            intercept: copy_yaml_option(&self.intercept),
            extra: copy_dict_option(&self.extra),
        }
    }
}

impl Default for PartialEntryOptions {
    fn default() -> (r: Self)
        ensures
            r@ == (PartialView {
                id: None,
                name: None,
                config: None,
                group: None,
                disabled: None,
                inject: None,
                isolate: None,
                intercept: None,
                extra: None,
            }),
    {
        PartialEntryOptions {
            id: None,
            name: None,
            config: None,
            group: None,
            disabled: None,
            inject: None,
            isolate: None,
            intercept: None,
            extra: None,
        }
    }
}

impl PartialEntryOptions {
    /// Full options for a new entry.
    pub fn into_options(&self, id: String, name: String) -> (r: EntryOptions)
        ensures
            r@ == self@.full(id@, name@),
    {
        EntryOptions {
            id: match &self.id {
                Some(own) => own.clone(),
                None => id,
            },
            name: match &self.name {
                Some(own) => own.clone(),
                None => name,
            },
            config: copy_yaml_option(&self.config),
            group: self.group,
            disabled: self.disabled,
            inject: copy_texts_option(&self.inject),
            isolate: copy_dict_option(&self.isolate),
            intercept: copy_yaml_option(&self.intercept),
            extra: match &self.extra {
                Some(extra) => extra.duplicate(),
                None => Dict::new(),
            },
        }
    }

    /// Sets the fields that the update mentions.
    pub fn apply_to(&self, current: &mut EntryOptions)
        ensures
            final(current)@ == old(current)@.patched(self@),
    {
        if let Some(id) = &self.id {
            current.id = id.clone();
        }
        if let Some(name) = &self.name {
            current.name = name.clone();
        }
        if let Some(config) = &self.config {
            current.config = Some(config.clone());
        }
        if let Some(group) = self.group {
            current.group = Some(group);
        }
        if let Some(disabled) = self.disabled {
            current.disabled = Some(disabled);
        }
        if let Some(inject) = &self.inject {
            current.inject = Some(clone_texts(inject));
        }
        if let Some(isolate) = &self.isolate {
            current.isolate = Some(isolate.duplicate());
        }
        if let Some(intercept) = &self.intercept {
            current.intercept = Some(intercept.clone());
        }
        if let Some(extra) = &self.extra {
            current.extra = extra.duplicate();
        }
    }

    /// Sets every field; what the update does not mention is cleared.
    pub fn apply_full(&self, current: &mut EntryOptions)
        ensures
            final(current)@ == old(current)@.replaced(self@),
    {
        if let Some(id) = &self.id {
            current.id = id.clone();
        }
        if let Some(name) = &self.name {
            current.name = name.clone();
        }
        current.config = copy_yaml_option(&self.config);
        current.group = self.group;
        current.disabled = self.disabled;
        current.inject = copy_texts_option(&self.inject);
        current.isolate = copy_dict_option(&self.isolate);
        current.intercept = copy_yaml_option(&self.intercept);
        current.extra = match &self.extra {
            Some(extra) => extra.duplicate(),
            None => Dict::new(),
        };
    }

    /// The update that sets every field to that of `options`.
    pub fn from_options(options: &EntryOptions) -> (r: PartialEntryOptions)
        ensures
            r@ == options@.as_partial(),
    {
        PartialEntryOptions {
            id: Some(options.id.clone()),
            name: Some(options.name.clone()),
            config: copy_yaml_option(&options.config),
            group: options.group,
            disabled: options.disabled,
            inject: copy_texts_option(&options.inject),
            isolate: copy_dict_option(&options.isolate),
            intercept: copy_yaml_option(&options.intercept),
            extra: Some(options.extra.duplicate()),
        }
    }
}

/// A full update from an entry's options turns any options into those.
pub proof fn full_update_replaces(before: OptionsView, wanted: OptionsView)
    ensures
        before.replaced(wanted.as_partial()) == wanted,
{
}

/// An update that mentions nothing changes nothing.
pub proof fn empty_update_keeps(before: OptionsView, update: PartialView)
    requires
        update.id is None,
        update.name is None,
        update.config is None,
        update.group is None,
        update.disabled is None,
        update.inject is None,
        update.isolate is None,
        update.intercept is None,
        update.extra is None,
    ensures
        before.patched(update) == before,
{
}

/// Applying an update twice is applying it once.
pub proof fn update_is_idempotent(before: OptionsView, update: PartialView)
    ensures
        before.patched(update).patched(update) == before.patched(update),
        before.replaced(update).replaced(update) == before.replaced(update),
{
}

/// Options do not differ from themselves.
pub proof fn no_difference_from_itself(options: OptionsView)
    ensures
        changed_fields(options, options) == Seq::<Seq<char>>::empty(),
{
    if let Some(config) = options.config {
        crate::value::same_reflexive(config);
    }
    if let Some(intercept) = options.intercept {
        crate::value::same_reflexive(intercept);
    }
    assert forall|key: Seq<char>| same_option(
        #[trigger] lookup(options.extra, key),
        lookup(options.extra, key),
    ) by {
        if let Some(value) = lookup(options.extra, key) {
            crate::value::same_reflexive(value);
        }
    }
}

} // verus!
