//! What values stand for as options, and when two values are the same.

use crate::codec::{
    all_isolates, all_texts, as_any, as_flag, as_isolate, as_isolates, as_names, as_text, draft_of,
    draft_step, options_list_of, options_of, tagless, DraftView,
};
use crate::dict::{lookup, lookup_after_assign};
use crate::entry::untagged;
use crate::options::IsolateView;
use crate::roundtrip::{is_field, lemma_field_names};
use crate::value::{
    inserted, key_place, same, same_number, same_option, tag_name, value_under, NumericView,
    YamlView,
};
use vstd::prelude::*;

verus! {

/// Tags count for nothing where a text or a flag is read; null is no flag, but allowed for one.
pub proof fn texts_and_flags_are_read(value: YamlView)
    ensures
        untagged(value) is Text ==> as_text(value) == Some(untagged(value)->Text_0),
        !(untagged(value) is Text) ==> as_text(value) is None,
        value is Null ==> as_flag(value) == Some(None::<bool>),
        untagged(value) is Bool ==> as_flag(value) == Some(Some(untagged(value)->Bool_0)),
        !(value is Null) && !(untagged(value) is Bool) ==> as_flag(value) is None,
        value is Null ==> as_any(value) is None,
        !(value is Null) ==> as_any(value) == Some(value),
        !(value is Tagged) ==> untagged(value) == value,
        value is Tagged ==> untagged(value) == untagged(*value->Tagged_1),
{
}

/// A list of names is read name by name; one item that is no text spoils it. Null stands for no
/// list, and tagged null for the empty one.
pub proof fn names_are_read(value: YamlView)
    ensures
        value is Null ==> as_names(value) == Some(None::<Seq<Seq<char>>>),
        value is Tagged && untagged(value) is Null ==> as_names(value) is Some && as_names(
            value,
        )->0 is Some && as_names(value)->0->0.len() == 0,
        !(untagged(value) is Null) && !(untagged(value) is Sequence) ==> as_names(value) is None,
        untagged(value) matches YamlView::Sequence(items) ==> match as_names(value) {
            Some(names) => {
                &&& names is Some
                &&& names->0.len() == items.len()
                &&& forall|i: int|
                    0 <= i < items.len() ==> as_text(#[trigger] items[i]) == Some(names->0[i])
            },
            None => exists|i: int| 0 <= i < items.len() && as_text(#[trigger] items[i]) is None,
        },
{
    if let YamlView::Sequence(items) = untagged(value) {
        lemma_all_texts(items);
    }
}

proof fn lemma_all_texts(items: Seq<YamlView>)
    ensures
        match all_texts(items) {
            Some(names) => {
                &&& names.len() == items.len()
                &&& forall|i: int|
                    0 <= i < items.len() ==> as_text(#[trigger] items[i]) == Some(names[i])
            },
            None => exists|i: int| 0 <= i < items.len() && as_text(#[trigger] items[i]) is None,
        },
    decreases items.len(),
{
    if items.len() > 0 {
        let front = items.drop_last();
        lemma_all_texts(front);
        match all_texts(front) {
            Some(names) => {
                assert forall|i: int| 0 <= i < front.len() implies as_text(#[trigger] items[i])
                    == Some(names[i]) by {
                    assert(front[i] == items[i]);
                }
                if as_text(items.last()) is None {
                    assert(as_text(items[items.len() - 1]) is None);
                }
            },
            None => {
                let i = choose|i: int| 0 <= i < front.len() && as_text(#[trigger] front[i]) is None;
                assert(as_text(items[i]) is None);
            },
        }
    }
}

/// A declaration is a flag or a label. A mapping of declarations is read pair by pair, the last one
/// of a name counting; one pair that is no declaration spoils it.
pub proof fn isolates_are_read(value: YamlView)
    ensures
        value is Null ==> as_isolates(value) is Some && as_isolates(value)->0 is None,
        value is Tagged && untagged(value) is Null ==> as_isolates(value) is Some && as_isolates(
            value,
        )->0 is Some && as_isolates(value)->0->0.len() == 0,
        !(untagged(value) is Null) && !(untagged(value) is Mapping) ==> as_isolates(value) is None,
        untagged(value) matches YamlView::Mapping(pairs) ==> match as_isolates(value) {
            Some(isolates) => {
                &&& isolates is Some
                &&& forall|i: int|
                    0 <= i < pairs.len() ==> as_text((#[trigger] pairs[i]).0) is Some && as_isolate(
                        pairs[i].1,
                    ) is Some
                &&& forall|name: Seq<char>| #[trigger]
                    lookup(isolates->0, name) == (match last_under(pairs, name) {
                        Some(declared) => as_isolate(declared),
                        None => None,
                    })
            },
            None => exists|i: int|
                0 <= i < pairs.len() && (as_text((#[trigger] pairs[i]).0) is None || as_isolate(
                    pairs[i].1,
                ) is None),
        },
        value is Bool ==> as_isolate(value) == Some(IsolateView::Flag(value->Bool_0)),
        value is Text ==> as_isolate(value) == Some(IsolateView::Label(value->Text_0)),
        !(value is Bool) && !(value is Text) ==> as_isolate(value) is None,
{
    if let YamlView::Mapping(pairs) = untagged(value) {
        lemma_all_isolates(pairs);
    }
}

proof fn lemma_all_isolates(pairs: Seq<(YamlView, YamlView)>)
    ensures
        match all_isolates(pairs) {
            Some(isolates) => {
                &&& forall|i: int|
                    0 <= i < pairs.len() ==> as_text((#[trigger] pairs[i]).0) is Some && as_isolate(
                        pairs[i].1,
                    ) is Some
                &&& forall|name: Seq<char>| #[trigger]
                    lookup(isolates, name) == (match last_under(pairs, name) {
                        Some(declared) => as_isolate(declared),
                        None => None,
                    })
            },
            None => exists|i: int|
                0 <= i < pairs.len() && (as_text((#[trigger] pairs[i]).0) is None || as_isolate(
                    pairs[i].1,
                ) is None),
        },
    decreases pairs.len(),
{
    if pairs.len() > 0 {
        let front = pairs.drop_last();
        let last = pairs.last();
        let n: int = pairs.len() - 1;
        lemma_all_isolates(front);
        match all_isolates(front) {
            Some(before) => {
                assert forall|i: int| 0 <= i < n implies as_text((#[trigger] pairs[i]).0) is Some
                    && as_isolate(pairs[i].1) is Some by {
                    assert(front[i] == pairs[i]);
                }
                if as_text(last.0) is Some && as_isolate(last.1) is Some {
                    let key = as_text(last.0)->0;
                    let declared = as_isolate(last.1)->0;
                    let after = all_isolates(pairs)->0;
                    assert forall|name: Seq<char>| #[trigger]
                        lookup(after, name) == (match last_under(pairs, name) {
                            Some(declared) => as_isolate(declared),
                            None => None,
                        }) by {
                        lookup_after_assign(before, key, declared, name);
                    }
                } else {
                    assert(as_text(pairs[n].0) is None || as_isolate(pairs[n].1) is None);
                }
            },
            None => {
                let i = choose|i: int|
                    0 <= i < front.len() && (as_text((#[trigger] front[i]).0) is None || as_isolate(
                        front[i].1,
                    ) is None);
                assert(pairs[i] == front[i]);
            },
        }
    } else {
        assert(forall|name: Seq<char>| #[trigger]
            lookup(Seq::<(Seq<char>, IsolateView)>::empty(), name) is None);
    }
}

/// The last value under a key, tags of the key aside.
pub open spec fn last_under(pairs: Seq<(YamlView, YamlView)>, key: Seq<char>) -> Option<YamlView>
    decreases pairs.len(),
{
    if pairs.len() == 0 {
        None
    } else if as_text(pairs.last().0) == Some(key) {
        Some(pairs.last().1)
    } else {
        last_under(pairs.drop_last(), key)
    }
}

/// What `last_under` finds.
pub proof fn the_last_value_counts(pairs: Seq<(YamlView, YamlView)>, key: Seq<char>)
    ensures
        match last_under(pairs, key) {
            Some(value) => exists|i: int|
                {
                    &&& 0 <= i < pairs.len()
                    &&& as_text((#[trigger] pairs[i]).0) == Some(key)
                    &&& pairs[i].1 == value
                    &&& forall|j: int|
                        i < j < pairs.len() ==> as_text((#[trigger] pairs[j]).0) != Some(key)
                },
            None => forall|i: int|
                0 <= i < pairs.len() ==> as_text((#[trigger] pairs[i]).0) != Some(key),
        },
    decreases pairs.len(),
{
    if pairs.len() > 0 {
        let front = pairs.drop_last();
        let n: int = pairs.len() - 1;
        if as_text(pairs.last().0) == Some(key) {
            assert(as_text(pairs[n].0) == Some(key));
        } else {
            the_last_value_counts(front, key);
            match last_under(front, key) {
                Some(value) => {
                    let i = choose|i: int|
                        {
                            &&& 0 <= i < front.len()
                            &&& as_text((#[trigger] front[i]).0) == Some(key)
                            &&& front[i].1 == value
                            &&& forall|j: int|
                                i < j < front.len() ==> as_text((#[trigger] front[j]).0)
                                    != Some(key)
                        };
                    assert(pairs[i] == front[i]);
                    assert forall|j: int| i < j < pairs.len() implies as_text(
                        (#[trigger] pairs[j]).0,
                    ) != Some(key) by {
                        if j < n {
                            assert(front[j] == pairs[j]);
                        }
                    }
                },
                None => {
                    assert forall|j: int| 0 <= j < pairs.len() implies as_text(
                        (#[trigger] pairs[j]).0,
                    ) != Some(key) by {
                        if j < n {
                            assert(front[j] == pairs[j]);
                        }
                    }
                },
            }
        }
    }
}

/// Whether a value can stand under a key: a text for the id and the name, a flag, a list of names or
/// declarations, anything for the config and the intercept, and nothing tagged under further keys.
pub open spec fn can_stand(key: Seq<char>, value: YamlView) -> bool {
    &&& key == "id"@ || key == "name"@ ==> as_text(value) is Some
    &&& key == "group"@ || key == "disabled"@ ==> as_flag(value) is Some
    &&& key == "inject"@ ==> as_names(value) is Some
    &&& key == "isolate"@ ==> as_isolates(value) is Some
    &&& !is_field(key) ==> tagless(value)
}

/// Whether the pairs can be read as fields: every key is a text, no field occurs twice, and every
/// value can stand under its key.
pub open spec fn can_be_read(pairs: Seq<(YamlView, YamlView)>) -> bool {
    &&& forall|i: int|
        0 <= i < pairs.len() ==> as_text((#[trigger] pairs[i]).0) is Some && can_stand(
            as_text(pairs[i].0)->0,
            pairs[i].1,
        )
    &&& forall|i: int, j: int|
        0 <= i < j < pairs.len() && as_text((#[trigger] pairs[i]).0) == as_text(
            (#[trigger] pairs[j]).0,
        ) ==> !is_field(as_text(pairs[i].0)->0)
}

/// A draft holds what the last values under the keys of the fields are read as.
spec fn holds_fields(pairs: Seq<(YamlView, YamlView)>, d: DraftView) -> bool {
    &&& d.id == (match last_under(pairs, "id"@) {
        Some(v) => as_text(v),
        None => None,
    })
    &&& d.name == (match last_under(pairs, "name"@) {
        Some(v) => as_text(v),
        None => None,
    })
    &&& d.config == (match last_under(pairs, "config"@) {
        Some(v) => Some(as_any(v)),
        None => None,
    })
    &&& d.group == (match last_under(pairs, "group"@) {
        Some(v) => as_flag(v),
        None => None,
    })
    &&& d.disabled == (match last_under(pairs, "disabled"@) {
        Some(v) => as_flag(v),
        None => None,
    })
    &&& d.inject == (match last_under(pairs, "inject"@) {
        Some(v) => as_names(v),
        None => None,
    })
    &&& d.isolate == (match last_under(pairs, "isolate"@) {
        Some(v) => as_isolates(v),
        None => None,
    })
    &&& d.intercept == (match last_under(pairs, "intercept"@) {
        Some(v) => Some(as_any(v)),
        None => None,
    })
    &&& forall|key: Seq<char>| #[trigger]
        lookup(d.extra, key) == (if is_field(key) {
            None
        } else {
            last_under(pairs, key)
        })
}

proof fn lemma_read_front(pairs: Seq<(YamlView, YamlView)>)
    requires
        pairs.len() > 0,
    ensures
        can_be_read(pairs) <==> {
            &&& can_be_read(pairs.drop_last())
            &&& as_text(pairs.last().0) is Some
            &&& can_stand(as_text(pairs.last().0)->0, pairs.last().1)
            &&& is_field(as_text(pairs.last().0)->0) ==> last_under(
                pairs.drop_last(),
                as_text(pairs.last().0)->0,
            ) is None
        },
{
    let front = pairs.drop_last();
    let n: int = pairs.len() - 1;
    let key = as_text(pairs.last().0)->0;
    the_last_value_counts(front, key);
    if can_be_read(pairs) {
        assert forall|i: int| 0 <= i < front.len() implies as_text((#[trigger] front[i]).0) is Some
            && can_stand(as_text(front[i].0)->0, front[i].1) by {
            assert(pairs[i] == front[i]);
        }
        assert forall|i: int, j: int|
            0 <= i < j < front.len() && as_text((#[trigger] front[i]).0) == as_text(
                (#[trigger] front[j]).0,
            ) implies !is_field(as_text(front[i].0)->0) by {
            assert(pairs[i] == front[i] && pairs[j] == front[j]);
        }
        assert(as_text(pairs[n].0) is Some);
        if is_field(key) && last_under(front, key) is Some {
            let i = choose|i: int|
                0 <= i < front.len() && as_text((#[trigger] front[i]).0) == Some(key);
            assert(pairs[i] == front[i]);
            assert(as_text(pairs[i].0) == as_text(pairs[n].0));
        }
    }
    if {
        &&& can_be_read(front)
        &&& as_text(pairs.last().0) is Some
        &&& can_stand(key, pairs.last().1)
        &&& is_field(key) ==> last_under(front, key) is None
    } {
        assert forall|i: int| 0 <= i < pairs.len() implies as_text((#[trigger] pairs[i]).0) is Some
            && can_stand(as_text(pairs[i].0)->0, pairs[i].1) by {
            if i < n {
                assert(pairs[i] == front[i]);
            }
        }
        assert forall|i: int, j: int|
            0 <= i < j < pairs.len() && as_text((#[trigger] pairs[i]).0) == as_text(
                (#[trigger] pairs[j]).0,
            ) implies !is_field(as_text(pairs[i].0)->0) by {
            assert(pairs[i] == front[i]);
            if j < n {
                assert(pairs[j] == front[j]);
            }
        }
    }
}

#[verifier::rlimit(40)]
proof fn lemma_reads(pairs: Seq<(YamlView, YamlView)>)
    ensures
        draft_of(pairs) is Some <==> can_be_read(pairs),
        draft_of(pairs) is Some ==> holds_fields(pairs, draft_of(pairs)->0),
    decreases pairs.len(),
{
    lemma_field_names();
    if pairs.len() == 0 {
        assert(forall|key: Seq<char>| #[trigger]
            lookup(Seq::<(Seq<char>, YamlView)>::empty(), key) is None);
    } else {
        let front = pairs.drop_last();
        let (key, value) = pairs.last();
        lemma_reads(front);
        lemma_read_front(pairs);
        if draft_of(front) is Some {
            let d = draft_of(front)->0;
            assert(can_be_read(front));
            lemma_field_held(front, d);
            if as_text(key) is Some {
                let k = as_text(key)->0;
                assert(draft_of(pairs) == draft_step(d, key, value));
                if draft_of(pairs) is Some {
                    let after = draft_of(pairs)->0;
                    assert forall|other: Seq<char>| #[trigger]
                        lookup(after.extra, other) == (if is_field(other) {
                            None
                        } else {
                            last_under(pairs, other)
                        }) by {
                        assert(lookup(d.extra, other) == (if is_field(other) {
                            None
                        } else {
                            last_under(front, other)
                        }));
                        if !is_field(k) {
                            lookup_after_assign(d.extra, k, value, other);
                        }
                    }
                }
            }
        }
    }
}

/// In a draft that can be read a field is held where it occurs.
proof fn lemma_field_held(pairs: Seq<(YamlView, YamlView)>, d: DraftView)
    requires
        can_be_read(pairs),
        holds_fields(pairs, d),
    ensures
        d.id is Some <==> last_under(pairs, "id"@) is Some,
        d.name is Some <==> last_under(pairs, "name"@) is Some,
        d.config is Some <==> last_under(pairs, "config"@) is Some,
        d.group is Some <==> last_under(pairs, "group"@) is Some,
        d.disabled is Some <==> last_under(pairs, "disabled"@) is Some,
        d.inject is Some <==> last_under(pairs, "inject"@) is Some,
        d.isolate is Some <==> last_under(pairs, "isolate"@) is Some,
        d.intercept is Some <==> last_under(pairs, "intercept"@) is Some,
{
    lemma_found_stands(pairs, "id"@);
    lemma_found_stands(pairs, "name"@);
    lemma_found_stands(pairs, "group"@);
    lemma_found_stands(pairs, "disabled"@);
    lemma_found_stands(pairs, "inject"@);
    lemma_found_stands(pairs, "isolate"@);
}

proof fn lemma_found_stands(pairs: Seq<(YamlView, YamlView)>, key: Seq<char>)
    requires
        can_be_read(pairs),
    ensures
        last_under(pairs, key) is Some ==> can_stand(key, last_under(pairs, key)->0),
{
    the_last_value_counts(pairs, key);
    if let Some(value) = last_under(pairs, key) {
        let i = choose|i: int|
            0 <= i < pairs.len() && as_text((#[trigger] pairs[i]).0) == Some(key) && pairs[i].1
                == value;
        assert(can_stand(as_text(pairs[i].0)->0, pairs[i].1));
    }
}

/// A value stands for options where it is, tags aside, a mapping that can be read and has an id and
/// a name. Each field is what its value is read as, and nothing where it does not occur; further
/// keys hold the last value given for them.
pub proof fn options_are_read_field_by_field(value: YamlView)
    ensures
        options_of(value) is Some <==> {
            &&& untagged(value) is Mapping
            &&& can_be_read(untagged(value)->Mapping_0)
            &&& last_under(untagged(value)->Mapping_0, "id"@) is Some
            &&& last_under(untagged(value)->Mapping_0, "name"@) is Some
        },
        options_of(value) matches Some(options) ==> {
            let pairs = untagged(value)->Mapping_0;
            &&& Some(options.id) == as_text(last_under(pairs, "id"@)->0)
            &&& Some(options.name) == as_text(last_under(pairs, "name"@)->0)
            &&& match last_under(pairs, "config"@) {
                Some(v) => options.config == as_any(v),
                None => options.config is None,
            }
            &&& match last_under(pairs, "group"@) {
                Some(v) => Some(options.group) == as_flag(v),
                None => options.group is None,
            }
            &&& match last_under(pairs, "disabled"@) {
                Some(v) => Some(options.disabled) == as_flag(v),
                None => options.disabled is None,
            }
            &&& match last_under(pairs, "inject"@) {
                Some(v) => Some(options.inject) == as_names(v),
                None => options.inject is None,
            }
            &&& match last_under(pairs, "isolate"@) {
                Some(v) => Some(options.isolate) == as_isolates(v),
                None => options.isolate is None,
            }
            &&& match last_under(pairs, "intercept"@) {
                Some(v) => options.intercept == as_any(v),
                None => options.intercept is None,
            }
            &&& forall|key: Seq<char>| #[trigger]
                lookup(options.extra, key) == (if is_field(key) {
                    None
                } else {
                    last_under(pairs, key)
                })
        },
{
    if let YamlView::Mapping(pairs) = untagged(value) {
        lemma_reads(pairs);
        if can_be_read(pairs) {
            lemma_field_held(pairs, draft_of(pairs)->0);
        }
    }
}

/// A list of options is null, which is the empty one, or a list of values that all stand for
/// options; nothing else is one. Tags count for nothing.
pub proof fn lists_of_options_are_read(value: YamlView)
    ensures
        untagged(value) is Null ==> options_list_of(value) is Some && options_list_of(
            value,
        )->0.len() == 0,
        untagged(value) matches YamlView::Sequence(items) ==> match options_list_of(value) {
            Some(list) => {
                &&& list.len() == items.len()
                &&& forall|i: int|
                    0 <= i < items.len() ==> options_of(#[trigger] items[i]) == Some(list[i])
            },
            None => exists|i: int| 0 <= i < items.len() && options_of(#[trigger] items[i]) is None,
        },
        !(untagged(value) is Null) && !(untagged(value) is Sequence) ==> options_list_of(
            value,
        ) is None,
{
    if let YamlView::Sequence(items) = untagged(value) {
        crate::overrides::options_are_read_one_by_one(items);
    }
}

/// Numbers are the same where they are the same integer, or floats in the same notation; the two
/// zeros are the same.
pub proof fn same_numbers(a: NumericView, b: NumericView)
    ensures
        match (a, b) {
            (NumericView::Int(x), NumericView::Int(y)) => same_number(a, b) <==> x == y,
            (NumericView::Float(x), NumericView::Float(y)) => same_number(a, b) <==> x == y || ((x
                == "0.0"@ || x == "-0.0"@) && (y == "0.0"@ || y == "-0.0"@)),
            _ => !same_number(a, b),
        },
{
}

/// Whether one of the pairs has the same key and the same value.
pub open spec fn has_same_pair(
    pairs: Seq<(YamlView, YamlView)>,
    pair: (YamlView, YamlView),
) -> bool {
    exists|j: int|
        0 <= j < pairs.len() && same(pair.0, (#[trigger] pairs[j]).0) && same(pair.1, pairs[j].1)
}

/// Values of different kinds are never the same. Lists are where their items are, place by place;
/// mappings where they have as many pairs and each pair of the one is among those of the other, in
/// any order; tagged values where the tags and the values are.
pub proof fn same_values(a: YamlView, b: YamlView)
    ensures
        match (a, b) {
            (YamlView::Null, YamlView::Null) => same(a, b),
            (YamlView::Bool(x), YamlView::Bool(y)) => same(a, b) <==> x == y,
            (YamlView::Numeric(x), YamlView::Numeric(y)) => same(a, b) <==> same_number(x, y),
            (YamlView::Text(x), YamlView::Text(y)) => same(a, b) <==> x == y,
            (YamlView::Sequence(x), YamlView::Sequence(y)) => same(a, b) <==> x.len() == y.len()
                && forall|i: int| 0 <= i < x.len() ==> same(#[trigger] x[i], y[i]),
            (YamlView::Mapping(x), YamlView::Mapping(y)) => same(a, b) <==> x.len() == y.len()
                && forall|i: int| 0 <= i < x.len() ==> has_same_pair(y, #[trigger] x[i]),
            (YamlView::Tagged(s, x), YamlView::Tagged(t, y)) => same(a, b) <==> s == t && same(
                *x,
                *y,
            ),
            _ => !same(a, b),
        },
        same_option(Some(a), Some(b)) == same(a, b),
        same_option(None, None),
        !same_option(Some(a), None),
        !same_option(None, Some(b)),
{
    if let (YamlView::Mapping(x), YamlView::Mapping(y)) = (a, b) {
        assert forall|i: int| 0 <= i < x.len() implies crate::value::pair_among(#[trigger] x[i], y)
            == has_same_pair(y, x[i]) by {}
        if same(a, b) {
            assert forall|i: int| 0 <= i < x.len() implies has_same_pair(y, #[trigger] x[i]) by {
                assert(crate::value::pair_among(x[i], y));
            }
        }
    }
}

/// A value that is inserted is found under its key, and what is under other names stays.
pub proof fn inserted_values_are_found(
    pairs: Seq<(YamlView, YamlView)>,
    key: Seq<char>,
    value: YamlView,
    other: Seq<char>,
)
    ensures
        ({
            let after = inserted(pairs, YamlView::Text(key), value);
            &&& value_under(after, YamlView::Text(key)) == Some(value)
            &&& other != key ==> value_under(after, YamlView::Text(other)) == value_under(
                pairs,
                YamlView::Text(other),
            )
            &&& value_under(pairs, YamlView::Text(key)) is Some ==> after.len() == pairs.len()
            &&& value_under(pairs, YamlView::Text(key)) is None ==> after == pairs.push(
                (YamlView::Text(key), value),
            )
        }),
    decreases pairs.len(),
{
    let k = YamlView::Text(key);
    let o = YamlView::Text(other);
    let after = inserted(pairs, k, value);
    if pairs.len() == 0 {
        assert(after =~= seq![(k, value)]);
        assert(after.drop_first() =~= Seq::<(YamlView, YamlView)>::empty());
        assert(key_place(Seq::<(YamlView, YamlView)>::empty(), o) == 0);
        assert(same(k, k));
    } else {
        let rest = pairs.drop_first();
        lemma_key_place_bounds(rest, k);
        lemma_key_place_bounds(rest, o);
        if same(pairs[0].0, k) {
            assert(after =~= seq![(pairs[0].0, value)] + rest);
            assert(after.drop_first() =~= rest);
        } else {
            inserted_values_are_found(rest, key, value, other);
            let below = inserted(rest, k, value);
            assert(after =~= seq![pairs[0]] + below);
            assert(after.drop_first() =~= below);
            lemma_key_place_bounds(below, k);
            lemma_key_place_bounds(below, o);
        }
    }
}

proof fn lemma_key_place_bounds(pairs: Seq<(YamlView, YamlView)>, key: YamlView)
    ensures
        0 <= key_place(pairs, key) <= pairs.len(),
    decreases pairs.len(),
{
    if pairs.len() > 0 {
        lemma_key_place_bounds(pairs.drop_first(), key);
    }
}

/// The value under a name is that of the first pair with this name.
pub proof fn the_first_value_is_found(pairs: Seq<(YamlView, YamlView)>, key: Seq<char>)
    ensures
        match value_under(pairs, YamlView::Text(key)) {
            Some(value) => exists|i: int|
                {
                    &&& 0 <= i < pairs.len()
                    &&& #[trigger] pairs[i] == (YamlView::Text(key), value)
                    &&& forall|j: int| 0 <= j < i ==> (#[trigger] pairs[j]).0 != YamlView::Text(key)
                },
            None => forall|i: int|
                0 <= i < pairs.len() ==> (#[trigger] pairs[i]).0 != YamlView::Text(key),
        },
    decreases pairs.len(),
{
    let k = YamlView::Text(key);
    if pairs.len() > 0 {
        assert(same(pairs[0].0, k) <==> pairs[0].0 == k);
        let rest = pairs.drop_first();
        the_first_value_is_found(rest, key);
        lemma_key_place_bounds(rest, k);
        if pairs[0].0 == k {
            assert(pairs[0] == (k, value_under(pairs, k)->0));
        } else {
            match value_under(rest, k) {
                Some(value) => {
                    let i = choose|i: int|
                        {
                            &&& 0 <= i < rest.len()
                            &&& #[trigger] rest[i] == (k, value)
                            &&& forall|j: int| 0 <= j < i ==> (#[trigger] rest[j]).0 != k
                        };
                    assert(pairs[i + 1] == (k, value));
                    assert forall|j: int| 0 <= j < i + 1 implies (#[trigger] pairs[j]).0 != k by {
                        if j > 0 {
                            assert(rest[j - 1] == pairs[j]);
                        }
                    }
                    assert(value_under(pairs, k) == Some(value));
                },
                None => {
                    assert forall|j: int| 0 <= j < pairs.len() implies (
                    #[trigger] pairs[j]).0 != k by {
                        if j > 0 {
                            assert(rest[j - 1] == pairs[j]);
                        }
                    }
                },
            }
        }
    }
}

/// A tag is named without its exclamation mark, unless that is all of it.
pub proof fn tags_are_named_without_the_mark(name: Seq<char>)
    ensures
        name.len() > 0 ==> tag_name(seq!['!'] + name) == name,
        name.len() > 0 && name[0] != '!' ==> tag_name(name) == name,
        tag_name(seq!['!']) == seq!['!'],
{
    assert((seq!['!'] + name).drop_first() =~= name);
}

/// A key that is there keeps its place and gets the value; every other pair stays.
pub proof fn inserted_keys_keep_their_place(
    pairs: Seq<(YamlView, YamlView)>,
    key: Seq<char>,
    value: YamlView,
    i: int,
)
    requires
        0 <= i < pairs.len(),
    ensures
        ({
            let after = inserted(pairs, YamlView::Text(key), value);
            &&& i < after.len()
            &&& after[i].0 == pairs[i].0
            &&& pairs[i].0 != YamlView::Text(key) ==> after[i].1 == pairs[i].1
        }),
    decreases pairs.len(),
{
    let k = YamlView::Text(key);
    assert(same(pairs[0].0, k) <==> pairs[0].0 == k);
    let rest = pairs.drop_first();
    lemma_key_place_bounds(rest, k);
    if pairs[0].0 != k && i > 0 {
        inserted_keys_keep_their_place(rest, key, value, i - 1);
        let below = inserted(rest, k, value);
        assert(inserted(pairs, k, value) =~= seq![pairs[0]] + below);
    }
}

/// Whether something tagged stands in a value.
pub open spec fn has_tag(value: YamlView) -> bool
    decreases value,
{
    match value {
        YamlView::Tagged(_, _) => true,
        YamlView::Sequence(items) => exists|i: int|
            0 <= i < items.len() && has_tag(#[trigger] items[i]),
        YamlView::Mapping(pairs) => exists|i: int|
            0 <= i < pairs.len() && (has_tag((#[trigger] pairs[i]).0) || has_tag(pairs[i].1)),
        _ => false,
    }
}

/// A value without tags is one in which nothing is tagged, keys included.
pub proof fn tags_are_found_at_any_depth(value: YamlView)
    ensures
        tagless(value) <==> !has_tag(value),
    decreases value,
{
    match value {
        YamlView::Sequence(items) => {
            assert forall|i: int| 0 <= i < items.len() implies tagless(#[trigger] items[i])
                == !has_tag(items[i]) by {
                tags_are_found_at_any_depth(items[i]);
            }
            if has_tag(value) {
                let i = choose|i: int| 0 <= i < items.len() && has_tag(#[trigger] items[i]);
                assert(!tagless(items[i]));
            }
        },
        YamlView::Mapping(pairs) => {
            assert forall|i: int| 0 <= i < pairs.len() implies tagless((#[trigger] pairs[i]).0)
                == !has_tag(pairs[i].0) && tagless(pairs[i].1) == !has_tag(pairs[i].1) by {
                tags_are_found_at_any_depth(pairs[i].0);
                tags_are_found_at_any_depth(pairs[i].1);
            }
            if has_tag(value) {
                let i = choose|i: int|
                    0 <= i < pairs.len() && (has_tag((#[trigger] pairs[i]).0) || has_tag(
                        pairs[i].1,
                    ));
                assert(!(tagless(pairs[i].0) && tagless(pairs[i].1)));
            }
        },
        _ => {},
    }
}

} // verus!
