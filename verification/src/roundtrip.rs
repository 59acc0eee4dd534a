//! What is written of options is read back.

use crate::codec::{
    all_isolates, all_options, all_texts, as_any, as_flag, as_isolate, as_isolates, as_names,
    as_text, draft_of, draft_step, empty_draft, encoded_list, encoded_pairs, inserted_option,
    options_list_of, options_of, options_of_draft, tagless, DraftView,
};
use crate::config::{
    first_intercept_expr, flag_value, head_pairs, inject_value, inserted_all, isolate_option_value,
    isolates_value, middle_pairs, names_value, placed, placed_all, placed_option, sorted_list,
    sorted_pairs,
};
use crate::dict::{
    assign, assign_all, distinct, lemma_lookup_at, lemma_place, lemma_place_is, lookup,
    lookup_after_assign, place, same_dict,
};
use crate::entry::untagged;
use crate::options::{IsolateView, OptionsView};
use crate::text::{text_lt, text_lt_irreflexive, text_lt_total, text_lt_transitive};
use crate::value::{inserted, key_place, same, value_under, YamlView};
use vstd::prelude::*;

verus! {

/// Pairs with text keys, as a mapping has them.
pub open spec fn texted(fields: Seq<(Seq<char>, YamlView)>) -> Seq<(YamlView, YamlView)> {
    Seq::new(fields.len(), |i: int| (YamlView::Text(fields[i].0), fields[i].1))
}

/// `assign`, where there is a value.
pub open spec fn assign_option(
    fields: Seq<(Seq<char>, YamlView)>,
    key: Seq<char>,
    value: Option<YamlView>,
) -> Seq<(Seq<char>, YamlView)> {
    match value {
        Some(v) => assign(fields, key, v),
        None => fields,
    }
}

/// Whether the key is that of a field of its own.
pub open spec fn is_field(key: Seq<char>) -> bool {
    key == "id"@ || key == "name"@ || key == "config"@ || key == "group"@ || key == "disabled"@
        || key == "inject"@ || key == "isolate"@ || key == "intercept"@
}

/// What stands under a key in written options.
pub open spec fn field_value(options: OptionsView, key: Seq<char>) -> Option<YamlView> {
    if key == "id"@ {
        Some(YamlView::Text(options.id))
    } else if key == "name"@ {
        Some(YamlView::Text(options.name))
    } else if key == "config"@ {
        options.config
    } else if key == "group"@ {
        flag_value(options.group)
    } else if key == "disabled"@ {
        flag_value(options.disabled)
    } else if key == "inject"@ {
        inject_value(options.inject)
    } else if key == "isolate"@ {
        isolate_option_value(options.isolate)
    } else if key == "intercept"@ {
        options.intercept
    } else {
        lookup(options.extra, key)
    }
}

/// Options whose further keys occur once each and are no field names.
pub open spec fn own_keys(options: OptionsView) -> bool {
    &&& distinct(options.extra)
    &&& forall|i: int|
        0 <= i < options.extra.len() ==> !is_field((#[trigger] options.extra[i]).0)
}

/// Options that a mapping can hold without loss: no field is set to null, and the further keys are
/// no field names and hold no tags.
pub open spec fn storable(options: OptionsView) -> bool {
    &&& own_keys(options)
    &&& options.config != Some(YamlView::Null)
    &&& options.intercept != Some(YamlView::Null)
    &&& (options.isolate is Some ==> distinct(options.isolate->0))
    &&& forall|i: int| 0 <= i < options.extra.len() ==> tagless((#[trigger] options.extra[i]).1)
}

/// Options that say the same: equal but for the order of the further keys.
pub open spec fn same_options(a: OptionsView, b: OptionsView) -> bool {
    a == (OptionsView { extra: a.extra, ..b }) && same_dict(a.extra, b.extra)
}

proof fn lemma_place_texted(fields: Seq<(Seq<char>, YamlView)>, key: Seq<char>)
    ensures
        key_place(texted(fields), YamlView::Text(key)) == place(fields, key),
    decreases fields.len(),
{
    if fields.len() > 0 {
        assert(texted(fields).drop_first() =~= texted(fields.drop_first()));
        assert(same(YamlView::Text(fields[0].0), YamlView::Text(key)) == (fields[0].0 == key));
        lemma_place_texted(fields.drop_first(), key);
    }
}

proof fn lemma_insert_texted(fields: Seq<(Seq<char>, YamlView)>, key: Seq<char>, value: YamlView)
    ensures
        inserted(texted(fields), YamlView::Text(key), value) == texted(assign(fields, key, value)),
{
    lemma_place_texted(fields, key);
    lemma_place(fields, key);
    assert(inserted(texted(fields), YamlView::Text(key), value) =~= texted(
        assign(fields, key, value),
    ));
}

proof fn lemma_insert_option_texted(
    fields: Seq<(Seq<char>, YamlView)>,
    key: Seq<char>,
    value: Option<YamlView>,
)
    ensures
        inserted_option(texted(fields), key, value) == texted(assign_option(fields, key, value)),
{
    if let Some(v) = value {
        lemma_insert_texted(fields, key, v);
    }
}

proof fn lemma_insert_all_texted(
    fields: Seq<(Seq<char>, YamlView)>,
    more: Seq<(Seq<char>, YamlView)>,
)
    ensures
        inserted_all(texted(fields), more) == texted(assign_all(fields, more)),
    decreases more.len(),
{
    if more.len() > 0 {
        lemma_insert_all_texted(fields, more.drop_last());
        lemma_insert_texted(
            assign_all(fields, more.drop_last()),
            more.last().0,
            more.last().1,
        );
    }
}

proof fn lemma_assign_distinct(fields: Seq<(Seq<char>, YamlView)>, key: Seq<char>, value: YamlView)
    requires
        distinct(fields),
    ensures
        distinct(assign(fields, key, value)),
{
    lemma_place(fields, key);
}

proof fn lemma_assign_option(
    fields: Seq<(Seq<char>, YamlView)>,
    key: Seq<char>,
    value: Option<YamlView>,
    other: Seq<char>,
)
    requires
        distinct(fields),
        lookup(fields, key) is None,
    ensures
        distinct(assign_option(fields, key, value)),
        lookup(assign_option(fields, key, value), other) == (if other == key {
            value
        } else {
            lookup(fields, other)
        }),
{
    if let Some(v) = value {
        lemma_assign_distinct(fields, key, v);
        lookup_after_assign(fields, key, v, other);
    }
}

proof fn lemma_lookup_push(fields: Seq<(Seq<char>, YamlView)>, key: Seq<char>)
    requires
        fields.len() > 0,
        distinct(fields),
    ensures
        distinct(fields.drop_last()),
        lookup(fields, key) == (if key == fields.last().0 {
            Some(fields.last().1)
        } else {
            lookup(fields.drop_last(), key)
        }),
        lookup(fields.drop_last(), fields.last().0) is None,
{
    let front = fields.drop_last();
    let last = fields.len() - 1;
    lemma_place(front, key);
    if key == fields.last().0 {
        lemma_lookup_at(fields, last);
    } else {
        let at = place(front, key);
        assert forall|i: int| 0 <= i < at implies (#[trigger] fields[i]).0 != key by {
            assert(front[i].0 != key);
        }
        if at < front.len() {
            assert(fields[at].0 == key);
            lemma_place_is(fields, key, at);
        } else {
            lemma_place_is(fields, key, fields.len() as int);
        }
    }
    assert forall|i: int| 0 <= i < front.len() implies (#[trigger] front[i]).0
        != fields.last().0 by {
        assert(fields[i].0 != fields[last].0);
    }
    lemma_place_is(front, fields.last().0, front.len() as int);
    assert forall|i: int, j: int|
        0 <= i < front.len() && 0 <= j < front.len() && i != j implies (#[trigger] front[i]).0 != (
    #[trigger] front[j]).0 by {
        assert(fields[i].0 != fields[j].0);
    }
}

proof fn lemma_assign_all(
    fields: Seq<(Seq<char>, YamlView)>,
    more: Seq<(Seq<char>, YamlView)>,
    key: Seq<char>,
)
    requires
        distinct(fields),
        distinct(more),
    ensures
        distinct(assign_all(fields, more)),
        lookup(assign_all(fields, more), key) == (match lookup(more, key) {
            Some(value) => Some(value),
            None => lookup(fields, key),
        }),
    decreases more.len(),
{
    if more.len() > 0 {
        lemma_lookup_push(more, key);
        lemma_assign_all(fields, more.drop_last(), key);
        let front = assign_all(fields, more.drop_last());
        lemma_assign_distinct(front, more.last().0, more.last().1);
        lookup_after_assign(front, more.last().0, more.last().1, key);
    }
}

/// The keys go up.
pub open spec fn goes_up(fields: Seq<(Seq<char>, YamlView)>) -> bool {
    forall|i: int, j: int|
        0 <= i < j < fields.len() ==> text_lt((#[trigger] fields[i]).0, (#[trigger] fields[j]).0)
}

proof fn lemma_placed_keys(
    fields: Seq<(Seq<char>, YamlView)>,
    key: Seq<char>,
    value: YamlView,
    i: int,
)
    requires
        0 <= i < placed(fields, key, value).len(),
    ensures
        placed(fields, key, value)[i].0 == key || exists|j: int|
            0 <= j < fields.len() && (#[trigger] fields[j]).0 == placed(fields, key, value)[i].0,
    decreases fields.len(),
{
    let after = placed(fields, key, value);
    if fields.len() > 0 {
        let rest = fields.drop_first();
        if fields[0].0 == key {
            if i > 0 {
                assert(fields[i].0 == after[i].0);
            }
        } else if text_lt(key, fields[0].0) {
            if i > 0 {
                assert(fields[i - 1].0 == after[i].0);
            }
        } else if i == 0 {
            assert(fields[0].0 == after[0].0);
        } else {
            lemma_placed_keys(rest, key, value, i - 1);
            assert(after[i] == placed(rest, key, value)[i - 1]);
            if after[i].0 != key {
                let j = choose|j: int|
                    0 <= j < rest.len() && (#[trigger] rest[j]).0 == after[i].0;
                assert(fields[j + 1].0 == after[i].0);
            }
        }
    }
}

proof fn lemma_placed_goes_up(fields: Seq<(Seq<char>, YamlView)>, key: Seq<char>, value: YamlView)
    requires
        goes_up(fields),
    ensures
        goes_up(placed(fields, key, value)),
    decreases fields.len(),
{
    let after = placed(fields, key, value);
    if fields.len() > 0 {
        let rest = fields.drop_first();
        assert(goes_up(rest)) by {
            assert forall|i: int, j: int| 0 <= i < j < rest.len() implies text_lt(
                (#[trigger] rest[i]).0,
                (#[trigger] rest[j]).0,
            ) by {
                assert(text_lt(fields[i + 1].0, fields[j + 1].0));
            }
        }
        if fields[0].0 == key {
            assert forall|i: int, j: int| 0 <= i < j < after.len() implies text_lt(
                (#[trigger] after[i]).0,
                (#[trigger] after[j]).0,
            ) by {
                assert(text_lt(fields[i].0, fields[j].0));
            }
        } else if text_lt(key, fields[0].0) {
            assert forall|i: int, j: int| 0 <= i < j < after.len() implies text_lt(
                (#[trigger] after[i]).0,
                (#[trigger] after[j]).0,
            ) by {
                if i > 0 {
                    assert(text_lt(fields[i - 1].0, fields[j - 1].0));
                } else if j > 1 {
                    assert(text_lt(fields[0].0, fields[j - 1].0));
                    text_lt_transitive(key, fields[0].0, fields[j - 1].0);
                }
            }
        } else {
            lemma_placed_goes_up(rest, key, value);
            text_lt_total(key, fields[0].0);
            let tail = placed(rest, key, value);
            assert forall|i: int, j: int| 0 <= i < j < after.len() implies text_lt(
                (#[trigger] after[i]).0,
                (#[trigger] after[j]).0,
            ) by {
                if i > 0 {
                    assert(text_lt(tail[i - 1].0, tail[j - 1].0));
                } else {
                    lemma_placed_keys(rest, key, value, j - 1);
                    if after[j].0 != key {
                        let k = choose|k: int|
                            0 <= k < rest.len() && (#[trigger] rest[k]).0 == tail[j - 1].0;
                        assert(text_lt(fields[0].0, fields[k + 1].0));
                    }
                }
            }
        }
    }
}

proof fn lemma_goes_up_distinct(fields: Seq<(Seq<char>, YamlView)>)
    requires
        goes_up(fields),
    ensures
        distinct(fields),
{
    assert forall|i: int, j: int|
        0 <= i < fields.len() && 0 <= j < fields.len() && i != j implies (#[trigger] fields[i]).0
        != (#[trigger] fields[j]).0 by {
        text_lt_irreflexive(fields[i].0);
        if i < j {
            assert(text_lt(fields[i].0, fields[j].0));
        } else {
            assert(text_lt(fields[j].0, fields[i].0));
        }
    }
}

proof fn lemma_lookup_front(fields: Seq<(Seq<char>, YamlView)>, key: Seq<char>)
    requires
        fields.len() > 0,
    ensures
        lookup(fields, key) == (if fields[0].0 == key {
            Some(fields[0].1)
        } else {
            lookup(fields.drop_first(), key)
        }),
{
    lemma_place(fields.drop_first(), key);
}

proof fn lemma_lookup_placed(
    fields: Seq<(Seq<char>, YamlView)>,
    key: Seq<char>,
    value: YamlView,
    other: Seq<char>,
)
    ensures
        lookup(placed(fields, key, value), other) == (if other == key {
            Some(value)
        } else {
            lookup(fields, other)
        }),
    decreases fields.len(),
{
    let after = placed(fields, key, value);
    lemma_lookup_front(after, other);
    if fields.len() == 0 {
        assert(after.drop_first() =~= Seq::<(Seq<char>, YamlView)>::empty());
    } else {
        lemma_lookup_front(fields, other);
        if fields[0].0 == key {
            assert(after.drop_first() =~= fields.drop_first());
        } else if text_lt(key, fields[0].0) {
            assert(after.drop_first() =~= fields);
        } else {
            assert(after.drop_first() =~= placed(fields.drop_first(), key, value));
            lemma_lookup_placed(fields.drop_first(), key, value, other);
        }
    }
}

proof fn lemma_placed_option(
    fields: Seq<(Seq<char>, YamlView)>,
    key: Seq<char>,
    value: Option<YamlView>,
    other: Seq<char>,
)
    requires
        goes_up(fields),
        lookup(fields, key) is None,
    ensures
        goes_up(placed_option(fields, key, value)),
        lookup(placed_option(fields, key, value), other) == (if other == key {
            value
        } else {
            lookup(fields, other)
        }),
{
    if let Some(v) = value {
        lemma_placed_goes_up(fields, key, v);
        lemma_lookup_placed(fields, key, v, other);
    }
}

proof fn lemma_placed_all(
    fields: Seq<(Seq<char>, YamlView)>,
    more: Seq<(Seq<char>, YamlView)>,
    key: Seq<char>,
)
    requires
        goes_up(fields),
        distinct(more),
    ensures
        goes_up(placed_all(fields, more)),
        lookup(placed_all(fields, more), key) == (match lookup(more, key) {
            Some(value) => Some(value),
            None => lookup(fields, key),
        }),
    decreases more.len(),
{
    if more.len() > 0 {
        lemma_lookup_push(more, key);
        lemma_placed_all(fields, more.drop_last(), key);
        let front = placed_all(fields, more.drop_last());
        lemma_placed_goes_up(front, more.last().0, more.last().1);
        lemma_lookup_placed(front, more.last().0, more.last().1, key);
    }
}

/// The field names differ.
pub proof fn lemma_field_names()
    ensures
        "id"@ != "name"@ && "id"@ != "config"@ && "id"@ != "group"@ && "id"@ != "disabled"@
            && "id"@ != "inject"@ && "id"@ != "isolate"@ && "id"@ != "intercept"@,
        "name"@ != "config"@ && "name"@ != "group"@ && "name"@ != "disabled"@ && "name"@
            != "inject"@ && "name"@ != "isolate"@ && "name"@ != "intercept"@,
        "config"@ != "group"@ && "config"@ != "disabled"@ && "config"@ != "inject"@ && "config"@
            != "isolate"@ && "config"@ != "intercept"@,
        "group"@ != "disabled"@ && "group"@ != "inject"@ && "group"@ != "isolate"@ && "group"@
            != "intercept"@,
        "disabled"@ != "inject"@ && "disabled"@ != "isolate"@ && "disabled"@ != "intercept"@,
        "inject"@ != "isolate"@ && "inject"@ != "intercept"@,
        "isolate"@ != "intercept"@,
{
    reveal_strlit("id");
    reveal_strlit("name");
    reveal_strlit("config");
    reveal_strlit("group");
    reveal_strlit("disabled");
    reveal_strlit("inject");
    reveal_strlit("isolate");
    reveal_strlit("intercept");
    assert("id"@.len() == 2);
    assert("name"@.len() == 4);
    assert("config"@.len() == 6);
    assert("group"@.len() == 5);
    assert("disabled"@.len() == 8);
    assert("inject"@.len() == 6);
    assert("isolate"@.len() == 7);
    assert("intercept"@.len() == 9);
    assert("config"@[0] == 'c');
    assert("inject"@[0] == 'i');
}

proof fn lemma_empty(key: Seq<char>)
    ensures
        lookup(Seq::<(Seq<char>, YamlView)>::empty(), key) is None,
        goes_up(Seq::<(Seq<char>, YamlView)>::empty()),
        distinct(Seq::<(Seq<char>, YamlView)>::empty()),
{
}

/// The further keys are no field names.
proof fn lemma_extra_is_no_field(options: OptionsView, key: Seq<char>)
    requires
        own_keys(options),
        is_field(key),
    ensures
        lookup(options.extra, key) is None,
{
    lemma_place(options.extra, key);
    let at = place(options.extra, key);
    if at < options.extra.len() {
        assert(!is_field(options.extra[at].0));
    }
}

/// The middle keys of written options go up, and each holds its field.
proof fn lemma_middle(options: OptionsView, key: Seq<char>)
    requires
        distinct(options.extra),
    ensures
        goes_up(middle_pairs(options)),
        own_keys(options) ==> lookup(middle_pairs(options), key) == (if key == "id"@ || key
            == "name"@ || key == "config"@ {
            None
        } else {
            field_value(options, key)
        }),
{
    lemma_field_names();
    let z = Seq::<(Seq<char>, YamlView)>::empty();
    let a = placed_option(z, "disabled"@, flag_value(options.disabled));
    let b = placed_option(a, "group"@, flag_value(options.group));
    let c = placed_option(b, "inject"@, inject_value(options.inject));
    let d = placed_option(c, "intercept"@, options.intercept);
    let e = placed_option(d, "isolate"@, isolate_option_value(options.isolate));
    assert forall|k: Seq<char>| #[trigger] lookup(z, k) is None by {
        lemma_empty(k);
    }
    assert forall|k: Seq<char>| #[trigger] lookup(a, k) == (if k == "disabled"@ {
        flag_value(options.disabled)
    } else {
        None
    }) && goes_up(a) by {
        lemma_placed_option(z, "disabled"@, flag_value(options.disabled), k);
    }
    assert(lookup(a, "group"@) is None);
    assert forall|k: Seq<char>| #[trigger] lookup(b, k) == (if k == "group"@ {
        flag_value(options.group)
    } else {
        lookup(a, k)
    }) && goes_up(b) by {
        lemma_placed_option(a, "group"@, flag_value(options.group), k);
    }
    assert(lookup(b, "inject"@) is None);
    assert forall|k: Seq<char>| #[trigger] lookup(c, k) == (if k == "inject"@ {
        inject_value(options.inject)
    } else {
        lookup(b, k)
    }) && goes_up(c) by {
        lemma_placed_option(b, "inject"@, inject_value(options.inject), k);
    }
    assert(lookup(c, "intercept"@) is None);
    assert forall|k: Seq<char>| #[trigger] lookup(d, k) == (if k == "intercept"@ {
        options.intercept
    } else {
        lookup(c, k)
    }) && goes_up(d) by {
        lemma_placed_option(c, "intercept"@, options.intercept, k);
    }
    assert(lookup(d, "isolate"@) is None);
    assert forall|k: Seq<char>| #[trigger] lookup(e, k) == (if k == "isolate"@ {
        isolate_option_value(options.isolate)
    } else {
        lookup(d, k)
    }) && goes_up(e) by {
        lemma_placed_option(d, "isolate"@, isolate_option_value(options.isolate), k);
    }
    lemma_placed_all(e, options.extra, key);
    if own_keys(options) && is_field(key) {
        lemma_extra_is_no_field(options, key);
    }
}

/// The keys between `name` and `config` of written options are in alphabetical order.
pub proof fn middle_keys_are_sorted(options: OptionsView)
    requires
        distinct(options.extra),
    ensures
        goes_up(middle_pairs(options)),
{
    lemma_middle(options, Seq::empty());
}

/// The fields at the head of written options.
spec fn head_fields(options: OptionsView) -> Seq<(Seq<char>, YamlView)> {
    seq![("id"@, YamlView::Text(options.id)), ("name"@, YamlView::Text(options.name))]
}

proof fn lemma_head(options: OptionsView, key: Seq<char>)
    ensures
        head_pairs(options) == texted(head_fields(options)),
        distinct(head_fields(options)),
        lookup(head_fields(options), key) == (if key == "id"@ {
            Some(YamlView::Text(options.id))
        } else if key == "name"@ {
            Some(YamlView::Text(options.name))
        } else {
            None
        }),
{
    lemma_field_names();
    let z = Seq::<(Seq<char>, YamlView)>::empty();
    let one = assign(z, "id"@, YamlView::Text(options.id));
    let two = assign(one, "name"@, YamlView::Text(options.name));
    assert(texted(z) =~= Seq::<(YamlView, YamlView)>::empty());
    lemma_insert_texted(z, "id"@, YamlView::Text(options.id));
    lemma_insert_texted(one, "name"@, YamlView::Text(options.name));
    assert(one =~= seq![("id"@, YamlView::Text(options.id))]);
    lemma_place_is(one, "name"@, 1);
    assert(two =~= head_fields(options));
    lemma_empty(key);
    lookup_after_assign(z, "id"@, YamlView::Text(options.id), key);
    lookup_after_assign(one, "name"@, YamlView::Text(options.name), key);
    lemma_assign_distinct(z, "id"@, YamlView::Text(options.id));
    lemma_assign_distinct(one, "name"@, YamlView::Text(options.name));
}

/// The fields of written options, in the order in which they are written.
spec fn written_fields(options: OptionsView) -> Seq<(Seq<char>, YamlView)> {
    assign_option(
        assign_all(head_fields(options), middle_pairs(options)),
        "config"@,
        options.config,
    )
}

proof fn lemma_written(options: OptionsView, key: Seq<char>)
    requires
        own_keys(options),
    ensures
        sorted_pairs(options) == texted(written_fields(options)),
        distinct(written_fields(options)),
        lookup(written_fields(options), key) == field_value(options, key),
{
    lemma_field_names();
    lemma_head(options, key);
    let head = head_fields(options);
    let middle = middle_pairs(options);
    lemma_middle(options, key);
    lemma_goes_up_distinct(middle);
    lemma_insert_all_texted(head, middle);
    let both = assign_all(head, middle);
    lemma_assign_all(head, middle, key);
    lemma_assign_all(head, middle, "config"@);
    lemma_middle(options, "config"@);
    lemma_head(options, "config"@);
    lemma_insert_option_texted(both, "config"@, options.config);
    lemma_assign_option(both, "config"@, options.config, key);
}

/// The fields of encoded options, in the order in which they are encoded.
spec fn encoded_fields(options: OptionsView) -> Seq<(Seq<char>, YamlView)> {
    let a = assign_option(head_fields(options), "config"@, options.config);
    let b = assign_option(a, "group"@, flag_value(options.group));
    let c = assign_option(b, "disabled"@, flag_value(options.disabled));
    let d = assign_option(c, "inject"@, inject_value(options.inject));
    let e = assign_option(d, "isolate"@, isolate_option_value(options.isolate));
    let f = assign_option(e, "intercept"@, options.intercept);
    assign_all(f, options.extra)
}

proof fn lemma_encoded(options: OptionsView, key: Seq<char>)
    requires
        own_keys(options),
    ensures
        encoded_pairs(options) == texted(encoded_fields(options)),
        distinct(encoded_fields(options)),
        lookup(encoded_fields(options), key) == field_value(options, key),
{
    lemma_field_names();
    let h = head_fields(options);
    let a = assign_option(h, "config"@, options.config);
    let b = assign_option(a, "group"@, flag_value(options.group));
    let c = assign_option(b, "disabled"@, flag_value(options.disabled));
    let d = assign_option(c, "inject"@, inject_value(options.inject));
    let e = assign_option(d, "isolate"@, isolate_option_value(options.isolate));
    let f = assign_option(e, "intercept"@, options.intercept);
    lemma_head(options, key);
    lemma_insert_option_texted(h, "config"@, options.config);
    lemma_insert_option_texted(a, "group"@, flag_value(options.group));
    lemma_insert_option_texted(b, "disabled"@, flag_value(options.disabled));
    lemma_insert_option_texted(c, "inject"@, inject_value(options.inject));
    lemma_insert_option_texted(d, "isolate"@, isolate_option_value(options.isolate));
    lemma_insert_option_texted(e, "intercept"@, options.intercept);
    lemma_insert_all_texted(f, options.extra);
    assert forall|k: Seq<char>| #[trigger] lookup(h, k) == (if k == "id"@ {
        Some(YamlView::Text(options.id))
    } else if k == "name"@ {
        Some(YamlView::Text(options.name))
    } else {
        None
    }) by {
        lemma_head(options, k);
    }
    assert(lookup(h, "config"@) is None);
    assert forall|k: Seq<char>| #[trigger] lookup(a, k) == (if k == "config"@ {
        options.config
    } else {
        lookup(h, k)
    }) && distinct(a) by {
        lemma_assign_option(h, "config"@, options.config, k);
    }
    assert(lookup(a, "group"@) is None);
    assert forall|k: Seq<char>| #[trigger] lookup(b, k) == (if k == "group"@ {
        flag_value(options.group)
    } else {
        lookup(a, k)
    }) && distinct(b) by {
        lemma_assign_option(a, "group"@, flag_value(options.group), k);
    }
    assert(lookup(b, "disabled"@) is None);
    assert forall|k: Seq<char>| #[trigger] lookup(c, k) == (if k == "disabled"@ {
        flag_value(options.disabled)
    } else {
        lookup(b, k)
    }) && distinct(c) by {
        lemma_assign_option(b, "disabled"@, flag_value(options.disabled), k);
    }
    assert(lookup(c, "inject"@) is None);
    assert forall|k: Seq<char>| #[trigger] lookup(d, k) == (if k == "inject"@ {
        inject_value(options.inject)
    } else {
        lookup(c, k)
    }) && distinct(d) by {
        lemma_assign_option(c, "inject"@, inject_value(options.inject), k);
    }
    assert(lookup(d, "isolate"@) is None);
    assert forall|k: Seq<char>| #[trigger] lookup(e, k) == (if k == "isolate"@ {
        isolate_option_value(options.isolate)
    } else {
        lookup(d, k)
    }) && distinct(e) by {
        lemma_assign_option(d, "isolate"@, isolate_option_value(options.isolate), k);
    }
    assert(lookup(e, "intercept"@) is None);
    assert forall|k: Seq<char>| #[trigger] lookup(f, k) == (if k == "intercept"@ {
        options.intercept
    } else {
        lookup(e, k)
    }) && distinct(f) by {
        lemma_assign_option(e, "intercept"@, options.intercept, k);
    }
    lemma_assign_all(f, options.extra, key);
    if is_field(key) {
        lemma_extra_is_no_field(options, key);
    }
}

/// What a field was read as, where it occurs.
spec fn read_as<A>(value: Option<YamlView>, read: spec_fn(YamlView) -> Option<A>) -> Option<A> {
    match value {
        Some(v) => read(v),
        None => None,
    }
}

/// The draft holds what the fields are read as.
spec fn draft_reads(fields: Seq<(Seq<char>, YamlView)>, d: DraftView) -> bool {
    &&& d.id == read_as(lookup(fields, "id"@), |v: YamlView| as_text(v))
    &&& d.name == read_as(lookup(fields, "name"@), |v: YamlView| as_text(v))
    &&& d.config == read_as(lookup(fields, "config"@), |v: YamlView| Some(as_any(v)))
    &&& d.group == read_as(lookup(fields, "group"@), |v: YamlView| as_flag(v))
    &&& d.disabled == read_as(lookup(fields, "disabled"@), |v: YamlView| as_flag(v))
    &&& d.inject == read_as(lookup(fields, "inject"@), |v: YamlView| as_names(v))
    &&& d.isolate == read_as(lookup(fields, "isolate"@), |v: YamlView| as_isolates(v))
    &&& d.intercept == read_as(lookup(fields, "intercept"@), |v: YamlView| Some(as_any(v)))
    &&& forall|key: Seq<char>| #[trigger]
        lookup(d.extra, key) == (if is_field(key) {
            None
        } else {
            lookup(fields, key)
        })
}

/// The value can be read under its key.
spec fn readable(key: Seq<char>, value: YamlView) -> bool {
    if key == "id"@ || key == "name"@ {
        as_text(value) is Some
    } else if key == "group"@ || key == "disabled"@ {
        as_flag(value) is Some
    } else if key == "inject"@ {
        as_names(value) is Some
    } else if key == "isolate"@ {
        as_isolates(value) is Some
    } else if key == "config"@ || key == "intercept"@ {
        true
    } else {
        tagless(value)
    }
}

proof fn lemma_draft(fields: Seq<(Seq<char>, YamlView)>)
    requires
        distinct(fields),
        forall|i: int| 0 <= i < fields.len() ==> readable((#[trigger] fields[i]).0, fields[i].1),
    ensures
        draft_of(texted(fields)) is Some,
        draft_reads(fields, draft_of(texted(fields))->0),
    decreases fields.len(),
{
    lemma_field_names();
    if fields.len() == 0 {
        assert(draft_of(texted(fields)) == Some(empty_draft()));
    } else {
        let front = fields.drop_last();
        let key = fields.last().0;
        let value = fields.last().1;
        assert forall|k: Seq<char>| #[trigger] lookup(fields, k) == (if k == key {
            Some(value)
        } else {
            lookup(front, k)
        }) by {
            lemma_lookup_push(fields, k);
        }
        lemma_lookup_push(fields, key);
        assert forall|i: int| 0 <= i < front.len() implies readable(
            (#[trigger] front[i]).0,
            front[i].1,
        ) by {
            assert(fields[i] == front[i]);
        }
        lemma_draft(front);
        assert(texted(fields).drop_last() =~= texted(front));
        assert(readable(fields[fields.len() - 1].0, fields[fields.len() - 1].1));
        let d = draft_of(texted(front))->0;
        assert(as_text(YamlView::Text(key)) == Some(key));
        let after = draft_step(d, YamlView::Text(key), value);
        assert(draft_of(texted(fields)) == after);
        assert(lookup(front, key) is None);
        if !is_field(key) {
            assert forall|k: Seq<char>| #[trigger] lookup(after->0.extra, k) == (if is_field(k) {
                None
            } else {
                lookup(fields, k)
            }) by {
                lookup_after_assign(d.extra, key, value, k);
                assert(lookup(d.extra, k) == (if is_field(k) {
                    None
                } else {
                    lookup(front, k)
                }));
            }
        } else {
            assert forall|k: Seq<char>| #[trigger] lookup(after->0.extra, k) == (if is_field(k) {
                None
            } else {
                lookup(fields, k)
            }) by {
                assert(lookup(d.extra, k) == (if is_field(k) {
                    None
                } else {
                    lookup(front, k)
                }));
            }
        }
    }
}

proof fn lemma_names_read(names: Seq<Seq<char>>)
    ensures
        as_names(names_value(names)) == Some(Some(names)),
{
    lemma_texts_read(names);
}

proof fn lemma_texts_read(names: Seq<Seq<char>>)
    ensures
        all_texts(names_value(names)->Sequence_0) == Some(names),
    decreases names.len(),
{
    let items = names_value(names)->Sequence_0;
    if names.len() == 0 {
        assert(names =~= Seq::<Seq<char>>::empty());
    } else {
        lemma_texts_read(names.drop_last());
        assert(items.drop_last() =~= names_value(names.drop_last())->Sequence_0);
        assert(as_text(items.last()) == Some(names.last()));
        assert(names.drop_last().push(names.last()) =~= names);
    }
}

proof fn lemma_isolates_read(isolates: Seq<(Seq<char>, IsolateView)>)
    requires
        distinct(isolates),
    ensures
        all_isolates(isolates_value(isolates)->Mapping_0) == Some(isolates),
    decreases isolates.len(),
{
    let pairs = isolates_value(isolates)->Mapping_0;
    if isolates.len() == 0 {
        assert(isolates =~= Seq::<(Seq<char>, IsolateView)>::empty());
    } else {
        let front = isolates.drop_last();
        assert forall|i: int, j: int|
            0 <= i < front.len() && 0 <= j < front.len() && i != j implies (#[trigger] front[i]).0
            != (#[trigger] front[j]).0 by {
            assert(isolates[i].0 != isolates[j].0);
        }
        lemma_isolates_read(front);
        assert(pairs.drop_last() =~= isolates_value(front)->Mapping_0);
        assert(as_text(pairs.last().0) == Some(isolates.last().0));
        assert(as_isolate(pairs.last().1) == Some(isolates.last().1));
        assert forall|i: int| 0 <= i < front.len() implies (#[trigger] front[i]).0
            != isolates.last().0 by {
            assert(isolates[i].0 != isolates[isolates.len() - 1].0);
        }
        lemma_place_is(front, isolates.last().0, front.len() as int);
        assert(front.push(isolates.last()) =~= isolates);
    }
}

/// Fields that hold what the options say are read as those options.
proof fn lemma_fields_read(options: OptionsView, fields: Seq<(Seq<char>, YamlView)>)
    requires
        storable(options),
        distinct(fields),
        forall|key: Seq<char>| #[trigger] lookup(fields, key) == field_value(options, key),
    ensures
        options_of(YamlView::Mapping(texted(fields))) is Some,
        same_options(options_of(YamlView::Mapping(texted(fields)))->0, options),
{
    lemma_field_names();
    if let Some(names) = options.inject {
        lemma_names_read(names);
    }
    if let Some(isolates) = options.isolate {
        lemma_isolates_read(isolates);
        assert(as_isolates(isolates_value(isolates)) == Some(Some(isolates)));
    }
    assert forall|i: int| 0 <= i < fields.len() implies readable(
        (#[trigger] fields[i]).0,
        fields[i].1,
    ) by {
        lemma_lookup_at(fields, i);
        let key = fields[i].0;
        assert(lookup(fields, key) == field_value(options, key));
        if !is_field(key) {
            lemma_place(options.extra, key);
            assert(tagless(options.extra[place(options.extra, key)].1));
        }
    }
    lemma_draft(fields);
    let d = draft_of(texted(fields))->0;
    assert(lookup(fields, "id"@) == Some(YamlView::Text(options.id)));
    assert(lookup(fields, "name"@) == Some(YamlView::Text(options.name)));
    assert(lookup(fields, "config"@) == options.config);
    assert(lookup(fields, "group"@) == flag_value(options.group));
    assert(lookup(fields, "disabled"@) == flag_value(options.disabled));
    assert(lookup(fields, "inject"@) == inject_value(options.inject));
    assert(lookup(fields, "isolate"@) == isolate_option_value(options.isolate));
    assert(lookup(fields, "intercept"@) == options.intercept);
    let back = options_of_draft(d)->0;
    assert(untagged(YamlView::Mapping(texted(fields))) == YamlView::Mapping(texted(fields)));
    assert(back.config == options.config);
    assert(back.group == options.group);
    assert(back.disabled == options.disabled);
    assert(back.inject == options.inject);
    assert(back.isolate == options.isolate);
    assert(back.intercept == options.intercept);
    assert forall|key: Seq<char>| #[trigger] lookup(back.extra, key) == lookup(
        options.extra,
        key,
    ) by {
        assert(lookup(d.extra, key) == (if is_field(key) {
            None
        } else {
            lookup(fields, key)
        }));
        if is_field(key) {
            lemma_extra_is_no_field(options, key);
        }
    }
}

/// Options as they are written to a config file are read back as the same options.
pub proof fn written_options_read_back(options: OptionsView)
    requires
        storable(options),
    ensures
        options_of(YamlView::Mapping(sorted_pairs(options))) is Some,
        same_options(options_of(YamlView::Mapping(sorted_pairs(options)))->0, options),
{
    let fields = written_fields(options);
    lemma_written(options, Seq::empty());
    assert forall|key: Seq<char>| #[trigger] lookup(fields, key) == field_value(options, key) by {
        lemma_written(options, key);
    }
    lemma_fields_read(options, fields);
}

/// Encoded options are decoded to the same options.
pub proof fn encoded_options_decode(options: OptionsView)
    requires
        storable(options),
    ensures
        options_of(YamlView::Mapping(encoded_pairs(options))) is Some,
        same_options(options_of(YamlView::Mapping(encoded_pairs(options)))->0, options),
{
    let fields = encoded_fields(options);
    lemma_encoded(options, Seq::empty());
    assert forall|key: Seq<char>| #[trigger] lookup(fields, key) == field_value(options, key) by {
        lemma_encoded(options, key);
    }
    lemma_fields_read(options, fields);
}

/// What stands under a key in a mapping of options: nothing is left out that there is.
pub open spec fn stands_under(options: OptionsView, pairs: Seq<(YamlView, YamlView)>) -> bool {
    &&& value_under(pairs, YamlView::Text("id"@)) == Some(YamlView::Text(options.id))
    &&& value_under(pairs, YamlView::Text("name"@)) == Some(YamlView::Text(options.name))
    &&& value_under(pairs, YamlView::Text("config"@)) == options.config
    &&& value_under(pairs, YamlView::Text("intercept"@)) == options.intercept
    &&& match options.group {
        Some(flag) => value_under(pairs, YamlView::Text("group"@)) == Some(YamlView::Bool(flag)),
        None => value_under(pairs, YamlView::Text("group"@)) is None,
    }
    &&& match options.disabled {
        Some(flag) => value_under(pairs, YamlView::Text("disabled"@)) == Some(YamlView::Bool(flag)),
        None => value_under(pairs, YamlView::Text("disabled"@)) is None,
    }
    &&& match options.inject {
        Some(names) => value_under(pairs, YamlView::Text("inject"@)) == Some(
            YamlView::Sequence(names.map_values(|name: Seq<char>| YamlView::Text(name))),
        ),
        None => value_under(pairs, YamlView::Text("inject"@)) is None,
    }
    &&& match options.isolate {
        Some(isolates) => value_under(pairs, YamlView::Text("isolate"@)) == Some(
            YamlView::Mapping(
                isolates.map_values(
                    |declared: (Seq<char>, IsolateView)|
                        (
                            YamlView::Text(declared.0),
                            match declared.1 {
                                IsolateView::Flag(flag) => YamlView::Bool(flag),
                                IsolateView::Label(label) => YamlView::Text(label),
                            },
                        ),
                ),
            ),
        ),
        None => value_under(pairs, YamlView::Text("isolate"@)) is None,
    }
    &&& forall|key: Seq<char>|
        !is_field(key) ==> #[trigger] value_under(pairs, YamlView::Text(key)) == lookup(
            options.extra,
            key,
        )
}

/// Options are written, and encoded, with every field that they have under its name, and with every
/// further key.
pub proof fn every_field_is_written(options: OptionsView)
    requires
        own_keys(options),
    ensures
        stands_under(options, sorted_pairs(options)),
        stands_under(options, encoded_pairs(options)),
{
    lemma_field_names();
    let written = written_fields(options);
    let encoded = encoded_fields(options);
    assert forall|key: Seq<char>| #[trigger]
        value_under(sorted_pairs(options), YamlView::Text(key)) == field_value(options, key) by {
        lemma_written(options, key);
        lemma_place_texted(written, key);
        lemma_place(written, key);
    }
    assert forall|key: Seq<char>| #[trigger]
        value_under(encoded_pairs(options), YamlView::Text(key)) == field_value(options, key) by {
        lemma_encoded(options, key);
        lemma_place_texted(encoded, key);
        lemma_place(encoded, key);
    }
    if let Some(names) = options.inject {
        assert(names_value(names)->Sequence_0 =~= names.map_values(
            |name: Seq<char>| YamlView::Text(name),
        ));
    }
    if let Some(isolates) = options.isolate {
        assert(crate::config::isolates_value(isolates)->Mapping_0 =~= isolates.map_values(
            |declared: (Seq<char>, IsolateView)|
                (
                    YamlView::Text(declared.0),
                    match declared.1 {
                        IsolateView::Flag(flag) => YamlView::Bool(flag),
                        IsolateView::Label(label) => YamlView::Text(label),
                    },
                ),
        ));
    }
}

proof fn lemma_assign_all_appends(
    fields: Seq<(Seq<char>, YamlView)>,
    more: Seq<(Seq<char>, YamlView)>,
)
    requires
        distinct(fields),
        distinct(more),
        forall|i: int| 0 <= i < more.len() ==> lookup(fields, (#[trigger] more[i]).0) is None,
    ensures
        assign_all(fields, more) == fields + more,
    decreases more.len(),
{
    if more.len() == 0 {
        assert(fields + more =~= fields);
    } else {
        let front = more.drop_last();
        let key = more.last().0;
        lemma_lookup_push(more, key);
        assert forall|i: int| 0 <= i < front.len() implies lookup(
            fields,
            (#[trigger] front[i]).0,
        ) is None by {
            assert(more[i] == front[i]);
        }
        lemma_assign_all_appends(fields, front);
        lemma_assign_all(fields, front, key);
        assert(lookup(fields, more[more.len() - 1].0) is None);
        lemma_place(fields + front, key);
        assert((fields + front).push(more.last()) =~= fields + more);
    }
}

/// Written options begin with `id` and `name` and end with `config`, if there is one; between them
/// stand the other keys in alphabetical order.
pub proof fn written_options_layout(options: OptionsView)
    requires
        own_keys(options),
    ensures
        sorted_pairs(options) == seq![
            (YamlView::Text("id"@), YamlView::Text(options.id)),
            (YamlView::Text("name"@), YamlView::Text(options.name)),
        ] + texted(middle_pairs(options)) + (match options.config {
            Some(config) => seq![(YamlView::Text("config"@), config)],
            None => Seq::empty(),
        }),
        goes_up(middle_pairs(options)),
{
    lemma_field_names();
    let head = head_fields(options);
    let middle = middle_pairs(options);
    lemma_middle(options, Seq::empty());
    lemma_goes_up_distinct(middle);
    lemma_head(options, Seq::empty());
    assert forall|i: int| 0 <= i < middle.len() implies lookup(
        head,
        (#[trigger] middle[i]).0,
    ) is None by {
        lemma_lookup_at(middle, i);
        lemma_middle(options, middle[i].0);
        lemma_head(options, middle[i].0);
    }
    lemma_assign_all_appends(head, middle);
    lemma_written(options, Seq::empty());
    let both = head + middle;
    lemma_assign_all(head, middle, "config"@);
    lemma_middle(options, "config"@);
    lemma_head(options, "config"@);
    lemma_place(both, "config"@);
    assert(texted(written_fields(options)) =~= seq![
        (YamlView::Text("id"@), YamlView::Text(options.id)),
        (YamlView::Text("name"@), YamlView::Text(options.name)),
    ] + texted(middle) + (match options.config {
        Some(config) => seq![(YamlView::Text("config"@), config)],
        None => Seq::empty(),
    }));
}

/// An encoded list of options is decoded to the same options, one for one.
pub proof fn encoded_list_decodes(list: Seq<OptionsView>)
    requires
        forall|i: int| 0 <= i < list.len() ==> storable(#[trigger] list[i]),
    ensures
        ({
            let back = options_list_of(encoded_list(list));
            &&& back is Some
            &&& back->0.len() == list.len()
            &&& forall|i: int|
                0 <= i < list.len() ==> same_options(#[trigger] back->0[i], list[i])
        }),
{
    let items = encoded_list(list)->Sequence_0;
    lemma_all_decode(list);
    assert(untagged(encoded_list(list)) == encoded_list(list));
}

proof fn lemma_all_decode(list: Seq<OptionsView>)
    requires
        forall|i: int| 0 <= i < list.len() ==> storable(#[trigger] list[i]),
    ensures
        ({
            let back = all_options(encoded_list(list)->Sequence_0);
            &&& back is Some
            &&& back->0.len() == list.len()
            &&& forall|i: int|
                0 <= i < list.len() ==> same_options(#[trigger] back->0[i], list[i])
        }),
    decreases list.len(),
{
    let items = encoded_list(list)->Sequence_0;
    if list.len() > 0 {
        let front = list.drop_last();
        assert forall|i: int| 0 <= i < front.len() implies storable(#[trigger] front[i]) by {
            assert(front[i] == list[i]);
        }
        lemma_all_decode(front);
        assert(items.drop_last() =~= encoded_list(front)->Sequence_0);
        let last = list.len() - 1;
        assert(storable(list[last]));
        encoded_options_decode(list[last]);
        assert(items.last() == YamlView::Mapping(encoded_pairs(list[last])));
        let before = all_options(items.drop_last())->0;
        let back = all_options(items)->0;
        assert forall|i: int| 0 <= i < list.len() implies same_options(
            #[trigger] back[i],
            list[i],
        ) by {
            if i < last {
                assert(back[i] == before[i]);
                assert(front[i] == list[i]);
            }
        }
    }
}

/// A written list of options stands for the same options, in the same order. So a config file that
/// is parsed to what was written is accepted where it was without expressions in `intercept`.
pub proof fn written_configs_read_back(configs: Seq<OptionsView>)
    requires
        forall|i: int| 0 <= i < configs.len() ==> storable(#[trigger] configs[i]),
    ensures
        ({
            let back = options_list_of(sorted_list(configs));
            &&& back is Some
            &&& back->0.len() == configs.len()
            &&& forall|i: int|
                0 <= i < configs.len() ==> same_options(#[trigger] back->0[i], configs[i])
            &&& first_intercept_expr(back->0) == first_intercept_expr(configs)
        }),
    decreases configs.len(),
{
    let items = sorted_list(configs)->Sequence_0;
    assert(untagged(sorted_list(configs)) == sorted_list(configs));
    if configs.len() > 0 {
        let front = configs.drop_last();
        assert forall|i: int| 0 <= i < front.len() implies storable(#[trigger] front[i]) by {
            assert(front[i] == configs[i]);
        }
        written_configs_read_back(front);
        assert(untagged(sorted_list(front)) == sorted_list(front));
        assert(items.drop_last() =~= sorted_list(front)->Sequence_0);
        let last = configs.len() - 1;
        assert(storable(configs[last]));
        written_options_read_back(configs[last]);
        assert(items.last() == YamlView::Mapping(sorted_pairs(configs[last])));
        let before = all_options(items.drop_last())->0;
        let back = all_options(items)->0;
        assert(back.drop_last() =~= before);
        assert forall|i: int| 0 <= i < configs.len() implies same_options(
            #[trigger] back[i],
            configs[i],
        ) by {
            if i < last {
                assert(back[i] == before[i]);
                assert(front[i] == configs[i]);
            }
        }
        assert(same_options(back[last], configs[last]));
    }
}

} // verus!
