//! Configuration values: the YAML data model with tags, and its equality.

use crate::text::same_text;
use vstd::prelude::*;

verus! {

/// The number type of `serde_yaml_ng`.
#[verifier::external_type_specification]
#[verifier::external_body]
pub struct ExYamlNumber(serde_yaml_ng::Number);

/// What a `serde_yaml_ng::Number` is: an integer by value, a float by the text that it displays
/// itself as.
pub uninterp spec fn number_contents(number: serde_yaml_ng::Number) -> NumericView;

/// A number, read.
pub enum NumberRead {
    Unsigned(u64),
    Negative(i64),
    Float(String),
}

impl View for NumberRead {
    type V = NumericView;

    open spec fn view(&self) -> NumericView {
        match self {
            NumberRead::Unsigned(n) => NumericView::Int(*n as int),
            NumberRead::Negative(n) => NumericView::Int(*n as int),
            NumberRead::Float(text) => NumericView::Float(text@),
        }
    }
}

/// `Number::as_u64`, `Number::as_i64` and, for what is neither, the text that
/// `<serde_yaml_ng::Number as Display>::fmt` writes: which of them tells of a number, and what it
/// tells, depends on the number alone.
#[verifier::external_body]
pub(crate) fn read_number(number: &serde_yaml_ng::Number) -> (r: NumberRead)
    ensures
        r@ == number_contents(*number),
{
    match (number.as_u64(), number.as_i64()) {
        (Some(unsigned), _) => NumberRead::Unsigned(unsigned),
        (None, Some(negative)) => NumberRead::Negative(negative),
        (None, None) => NumberRead::Float(number.to_string()),
    }
}

/// `<serde_yaml_ng::Number as From<u64>>::from` keeps the value.
#[verifier::external_body]
pub(crate) fn unsigned_number(n: u64) -> (r: serde_yaml_ng::Number)
    ensures
        number_contents(r) == NumericView::Int(n as int),
{
    serde_yaml_ng::Number::from(n)
}

/// `<serde_yaml_ng::Number as From<i64>>::from` keeps the value.
#[verifier::external_body]
pub(crate) fn signed_number(n: i64) -> (r: serde_yaml_ng::Number)
    ensures
        number_contents(r) == NumericView::Int(n as int),
{
    serde_yaml_ng::Number::from(n)
}

/// `<serde_yaml_ng::Number as Clone>::clone` gives back the same number.
pub assume_specification[ <serde_yaml_ng::Number as Clone>::clone ](
    number: &serde_yaml_ng::Number,
) -> (r: serde_yaml_ng::Number)
    ensures
        r == *number,
;

/// What a number is: an integer, or the notation of a float.
pub enum NumericView {
    Int(int),
    Float(Seq<char>),
}

/// What a value is.
pub enum YamlView {
    Null,
    Bool(bool),
    Numeric(NumericView),
    Text(Seq<char>),
    Sequence(Seq<YamlView>),
    Mapping(Seq<(YamlView, YamlView)>),
    Tagged(Seq<char>, Box<YamlView>),
}

/// A number of a configuration.
pub enum Numeric {
    PosInt(u64),
    NegInt(i64),
    /// Any number, in practice one that is no integer.
    Float(serde_yaml_ng::Number),
}

/// The tag of a tagged value, kept without its leading `!`.
pub struct Tag {
    name: String,
}

/// A value with a tag, such as `!expr env("PORT")`.
pub struct TaggedValue {
    pub tag: Tag,
    pub value: Yaml,
}

/// Key-value pairs in insertion order, no key twice.
pub struct Mapping {
    pairs: Vec<(Yaml, Yaml)>,
}

/// A configuration value.
pub enum Yaml {
    Null,
    Bool(bool),
    Numeric(Numeric),
    Text(String),
    Sequence(Vec<Yaml>),
    Mapping(Mapping),
    Tagged(Box<TaggedValue>),
}

impl View for Numeric {
    type V = NumericView;

    open spec fn view(&self) -> NumericView {
        match self {
            Numeric::PosInt(n) => NumericView::Int(*n as int),
            Numeric::NegInt(n) => NumericView::Int(*n as int),
            Numeric::Float(n) => number_contents(*n),
        }
    }
}

impl View for Tag {
    type V = Seq<char>;

    closed spec fn view(&self) -> Seq<char> {
        self.name@
    }
}

impl View for Yaml {
    type V = YamlView;

    closed spec fn view(&self) -> YamlView {
        yaml_view(*self)
    }
}

spec fn yaml_view(value: Yaml) -> YamlView
    decreases value,
{
    match value {
        Yaml::Null => YamlView::Null,
        Yaml::Bool(b) => YamlView::Bool(b),
        Yaml::Numeric(n) => YamlView::Numeric(n@),
        Yaml::Text(s) => YamlView::Text(s@),
        Yaml::Sequence(items) => YamlView::Sequence(
            Seq::new(
                items@.len(),
                |i: int|
                    if 0 <= i < items@.len() {
                        yaml_view(items@[i])
                    } else {
                        YamlView::Null
                    },
            ),
        ),
        Yaml::Mapping(mapping) => YamlView::Mapping(
            Seq::new(
                mapping.pairs@.len(),
                |i: int|
                    if 0 <= i < mapping.pairs@.len() {
                        (yaml_view(mapping.pairs@[i].0), yaml_view(mapping.pairs@[i].1))
                    } else {
                        (YamlView::Null, YamlView::Null)
                    },
            ),
        ),
        Yaml::Tagged(tagged) => YamlView::Tagged(tagged.tag@, Box::new(yaml_view(tagged.value))),
    }
}

impl View for Mapping {
    type V = Seq<(YamlView, YamlView)>;

    closed spec fn view(&self) -> Seq<(YamlView, YamlView)> {
        pair_views(self.pairs@)
    }
}

/// The views of a list of values.
pub open spec fn value_views(items: Seq<Yaml>) -> Seq<YamlView> {
    Seq::new(items.len(), |i: int| items[i]@)
}

/// The views of a list of pairs.
pub open spec fn pair_views(pairs: Seq<(Yaml, Yaml)>) -> Seq<(YamlView, YamlView)> {
    Seq::new(pairs.len(), |i: int| (pairs[i].0@, pairs[i].1@))
}

/// The view of an optional value.
pub open spec fn option_view(value: Option<Yaml>) -> Option<YamlView> {
    match value {
        Some(v) => Some(v@),
        None => None,
    }
}

/// The notation of a float that is zero, of either sign.
pub open spec fn zero_text(s: Seq<char>) -> bool {
    s == "0.0"@ || s == "-0.0"@
}

/// Equality of numbers: integers by value, floats by notation, with one zero.
pub open spec fn same_number(a: NumericView, b: NumericView) -> bool {
    match (a, b) {
        (NumericView::Int(x), NumericView::Int(y)) => x == y,
        (NumericView::Float(x), NumericView::Float(y)) => x == y || (zero_text(x) && zero_text(y)),
        _ => false,
    }
}

/// Equality of values. The order of a mapping's pairs does not count.
pub open spec fn same(a: YamlView, b: YamlView) -> bool
    decreases a,
{
    match a {
        YamlView::Null => b is Null,
        YamlView::Bool(x) => b == YamlView::Bool(x),
        YamlView::Numeric(x) => b is Numeric && same_number(x, b->Numeric_0),
        YamlView::Text(x) => b == YamlView::Text(x),
        YamlView::Sequence(x) => b is Sequence && x.len() == b->Sequence_0.len() && forall|i: int|
            0 <= i < x.len() ==> same(#[trigger] x[i], b->Sequence_0[i]),
        YamlView::Mapping(x) => b is Mapping && x.len() == b->Mapping_0.len() && forall|i: int|
            0 <= i < x.len() ==> pair_among(#[trigger] x[i], b->Mapping_0),
        YamlView::Tagged(tag, x) => b is Tagged && tag == b->Tagged_0 && same(*x, *b->Tagged_1),
    }
}

/// Some pair of `pairs` equals `pair`.
pub open spec fn pair_among(
    pair: (YamlView, YamlView),
    pairs: Seq<(YamlView, YamlView)>,
) -> bool
    decreases pair,
{
    exists|j: int|
        0 <= j < pairs.len() && same(pair.0, (#[trigger] pairs[j]).0) && same(pair.1, pairs[j].1)
}

/// Equality of optional values.
pub open spec fn same_option(a: Option<YamlView>, b: Option<YamlView>) -> bool {
    match (a, b) {
        (Some(x), Some(y)) => same(x, y),
        (None, None) => true,
        _ => false,
    }
}

/// No key occurs twice.
pub open spec fn distinct_keys(pairs: Seq<(YamlView, YamlView)>) -> bool {
    forall|i: int, j: int|
        0 <= i < j < pairs.len() ==> !same(
            (#[trigger] pairs[i]).0,
            (#[trigger] pairs[j]).0,
        )
}

/// The place of the first pair whose key equals `key`, the length where there is none.
pub open spec fn key_place(pairs: Seq<(YamlView, YamlView)>, key: YamlView) -> int
    decreases pairs.len(),
{
    if pairs.len() == 0 {
        0
    } else if same(pairs[0].0, key) {
        0
    } else {
        1 + key_place(pairs.drop_first(), key)
    }
}

/// The pairs after an insertion: an equal key keeps its place and gets the new value, a new key
/// goes to the end.
pub open spec fn inserted(
    pairs: Seq<(YamlView, YamlView)>,
    key: YamlView,
    value: YamlView,
) -> Seq<(YamlView, YamlView)> {
    let place = key_place(pairs, key);
    if place < pairs.len() {
        pairs.update(place, (pairs[place].0, value))
    } else {
        pairs.push((key, value))
    }
}

/// The value under `key`.
pub open spec fn value_under(pairs: Seq<(YamlView, YamlView)>, key: YamlView) -> Option<YamlView> {
    let place = key_place(pairs, key);
    if place < pairs.len() {
        Some(pairs[place].1)
    } else {
        None
    }
}

/// The tag name behind a notation that may start with `!`.
pub open spec fn tag_name(text: Seq<char>) -> Seq<char> {
    if text.len() >= 2 && text[0] == '!' {
        text.drop_first()
    } else {
        text
    }
}

/// The value is a sequence, a mapping or a tagged value exactly as its variant shows.
pub proof fn lemma_value_view(value: &Yaml)
    ensures
        value@ == match value {
            Yaml::Null => YamlView::Null,
            Yaml::Bool(b) => YamlView::Bool(*b),
            Yaml::Numeric(n) => YamlView::Numeric(n@),
            Yaml::Text(s) => YamlView::Text(s@),
            Yaml::Sequence(items) => YamlView::Sequence(value_views(items@)),
            Yaml::Mapping(mapping) => YamlView::Mapping(mapping@),
            Yaml::Tagged(tagged) => YamlView::Tagged(tagged.tag@, Box::new(tagged.value@)),
        },
{
    match value {
        Yaml::Sequence(items) => {
            assert(value@->Sequence_0 =~= value_views(items@));
        },
        Yaml::Mapping(mapping) => {
            assert(value@ is Mapping);
            let shown = value@->Mapping_0;
            assert(shown.len() == mapping.pairs@.len());
            assert forall|i: int| 0 <= i < shown.len() implies shown[i] == mapping@[i] by {
                assert(shown[i] == (mapping.pairs@[i].0@, mapping.pairs@[i].1@));
            }
            assert(shown =~= mapping@);
        },
        _ => {},
    }
}

proof fn lemma_key_place(pairs: Seq<(YamlView, YamlView)>, key: YamlView)
    ensures
        0 <= key_place(pairs, key) <= pairs.len(),
        key_place(pairs, key) < pairs.len() ==> same(pairs[key_place(pairs, key)].0, key),
        forall|i: int| 0 <= i < key_place(pairs, key) ==> !same((#[trigger] pairs[i]).0, key),
    decreases pairs.len(),
{
    if pairs.len() > 0 && !same(pairs[0].0, key) {
        let rest = pairs.drop_first();
        lemma_key_place(rest, key);
        assert forall|i: int| 0 <= i < key_place(pairs, key) implies !same(
            (#[trigger] pairs[i]).0,
            key,
        ) by {
            if i > 0 {
                assert(rest[i - 1] == pairs[i]);
            }
        }
    }
}

proof fn lemma_key_place_is(pairs: Seq<(YamlView, YamlView)>, key: YamlView, place: int)
    requires
        0 <= place <= pairs.len(),
        place < pairs.len() ==> same(pairs[place].0, key),
        forall|i: int| 0 <= i < place ==> !same((#[trigger] pairs[i]).0, key),
    ensures
        key_place(pairs, key) == place,
{
    lemma_key_place(pairs, key);
    let found = key_place(pairs, key);
    if found < place {
        assert(!same(pairs[found].0, key));
    }
}

/// Every value equals itself.
pub proof fn same_reflexive(a: YamlView)
    ensures
        same(a, a),
    decreases a,
{
    match a {
        YamlView::Sequence(x) => {
            assert forall|i: int| 0 <= i < x.len() implies same(#[trigger] x[i], x[i]) by {
                same_reflexive(x[i]);
            }
            assert(same(a, a));
        },
        YamlView::Mapping(x) => {
            assert forall|i: int| 0 <= i < x.len() implies pair_among(#[trigger] x[i], x) by {
                same_reflexive(x[i].0);
                same_reflexive(x[i].1);
                assert(same(x[i].0, x[i].0));
            }
            assert(same(a, a));
        },
        YamlView::Tagged(_, x) => {
            same_reflexive(*x);
        },
        _ => {},
    }
}

impl Numeric {
    /// The number, read.
    fn read(&self) -> (r: NumberRead)
        ensures
            r@ == self@,
    {
        match self {
            Numeric::PosInt(n) => NumberRead::Unsigned(*n),
            Numeric::NegInt(n) => NumberRead::Negative(*n),
            Numeric::Float(n) => read_number(n),
        }
    }

    /// Whether two numbers are equal.
    pub fn same_as(&self, other: &Numeric) -> (r: bool)
        ensures
            r == same_number(self@, other@),
    {
        match (self.read(), other.read()) {
            (NumberRead::Float(x), NumberRead::Float(y)) => {
                x == y || (is_zero_text(&x) && is_zero_text(&y))
            },
            (NumberRead::Unsigned(a), NumberRead::Unsigned(b)) => a == b,
            (NumberRead::Negative(a), NumberRead::Negative(b)) => a == b,
            (NumberRead::Unsigned(a), NumberRead::Negative(b)) => b >= 0 && a == b as u64,
            (NumberRead::Negative(a), NumberRead::Unsigned(b)) => a >= 0 && a as u64 == b,
            _ => false,
        }
    }
}

fn is_zero_text(s: &String) -> (r: bool)
    ensures
        r == zero_text(s@),
{
    same_text(s.as_str(), "0.0") || same_text(s.as_str(), "-0.0")
}

impl Clone for Numeric {
    fn clone(&self) -> (r: Self)
        ensures
            r@ == self@,
    {
        match self {
            Numeric::PosInt(n) => Numeric::PosInt(*n),
            Numeric::NegInt(n) => Numeric::NegInt(*n),
            Numeric::Float(n) => Numeric::Float(n.clone()),
        }
    }
}

impl Tag {
    #[verifier::type_invariant]
    spec fn nonempty(&self) -> bool {
        self.name@.len() > 0
    }

    /// A tag from its notation, with or without the leading `!`.
    pub fn new(text: &str) -> (r: Tag)
        requires
            text@.len() > 0,
        ensures
            r@ == tag_name(text@),
            r@.len() > 0,
    {
        let n: usize = text.unicode_len();
        if n >= 2 && text.get_char(0) == '!' {
            let name = text.substring_char(1, n).to_owned();
            assert(name@ =~= text@.drop_first());
            Tag { name }
        } else {
            Tag { name: text.to_owned() }
        }
    }

    /// The tag without the leading `!`.
    pub fn name(&self) -> (r: &String)
        ensures
            r@ == self@,
            r@.len() > 0,
    {
        proof {
            use_type_invariant(self);
        }
        &self.name
    }

    /// Whether the tag is `name`.
    pub fn is(&self, name: &str) -> (r: bool)
        ensures
            r == (self@ == name@),
    {
        same_text(self.name.as_str(), name)
    }
}

impl Clone for Tag {
    fn clone(&self) -> (r: Self)
        ensures
            r@ == self@,
    {
        proof {
            use_type_invariant(self);
        }
        Tag { name: self.name.clone() }
    }
}

impl Mapping {
    #[verifier::type_invariant]
    spec fn well_formed(&self) -> bool {
        distinct_keys(pair_views(self.pairs@))
    }

    /// The mapping without pairs.
    pub fn new() -> (r: Mapping)
        ensures
            r@ == Seq::<(YamlView, YamlView)>::empty(),
    {
        let pairs: Vec<(Yaml, Yaml)> = Vec::new();
        assert(pair_views(pairs@) =~= Seq::<(YamlView, YamlView)>::empty());
        Mapping { pairs }
    }

    /// A mapping of pairs whose keys differ.
    pub fn from_pairs(pairs: Vec<(Yaml, Yaml)>) -> (r: Mapping)
        requires
            distinct_keys(pair_views(pairs@)),
        ensures
            r@ == pair_views(pairs@),
    {
        Mapping { pairs }
    }

    /// No key of a mapping occurs twice.
    pub fn keys_differ(&self)
        ensures
            distinct_keys(self@),
    {
        proof {
            use_type_invariant(self);
        }
    }

    /// The number of pairs.
    pub fn len(&self) -> (r: usize)
        ensures
            r == self@.len(),
    {
        self.pairs.len()
    }

    /// The key at `index`.
    pub fn key_at(&self, index: usize) -> (r: &Yaml)
        requires
            index < self@.len(),
        ensures
            r@ == self@[index as int].0,
            decreases_to!(self => r),
    {
        &self.pairs[index].0
    }

    /// The value at `index`.
    pub fn value_at(&self, index: usize) -> (r: &Yaml)
        requires
            index < self@.len(),
        ensures
            r@ == self@[index as int].1,
            decreases_to!(self => r),
    {
        &self.pairs[index].1
    }

    /// The value under the string `key`.
    pub fn get(&self, key: &str) -> (r: Option<&Yaml>)
        ensures
            r is Some <==> value_under(self@, YamlView::Text(key@)) is Some,
            r matches Some(v) ==> v@ == value_under(self@, YamlView::Text(key@))->0,
    {
        let mut i: usize = 0;
        while i < self.pairs.len()
            invariant
                i <= self.pairs@.len(),
                forall|j: int|
                    0 <= j < i ==> !same((#[trigger] self@[j]).0, YamlView::Text(key@)),
            decreases self.pairs@.len() - i,
        {
            proof {
                lemma_value_view(&self.pairs@[i as int].0);
            }
            if let Yaml::Text(s) = &self.pairs[i].0 {
                if same_text(s.as_str(), key) {
                    proof {
                        lemma_key_place_is(self@, YamlView::Text(key@), i as int);
                    }
                    return Some(&self.pairs[i].1);
                }
            }
            i += 1;
        }
        proof {
            lemma_key_place_is(self@, YamlView::Text(key@), i as int);
        }
        None
    }

    /// Puts `value` under `key`.
    pub fn insert(&mut self, key: Yaml, value: Yaml)
        ensures
            final(self)@ == inserted(old(self)@, key@, value@),
    {
        proof {
            use_type_invariant(&*self);
        }
        let ghost before = self@;
        let mut pairs: Vec<(Yaml, Yaml)> = Vec::new();
        std::mem::swap(&mut pairs, &mut self.pairs);
        assert(pair_views(pairs@) == before);
        let mut i: usize = 0;
        while i < pairs.len()
            invariant
                i <= pairs@.len(),
                pair_views(pairs@) == before,
                before == old(self)@,
                distinct_keys(before),
                forall|j: int| 0 <= j < i ==> !same((#[trigger] before[j]).0, key@),
            decreases pairs@.len() - i,
        {
            if pairs[i].0.same_as(&key) {
                proof {
                    lemma_key_place_is(before, key@, i as int);
                }
                pairs[i].1 = value;
                assert(pair_views(pairs@) =~= inserted(before, key@, value@));
                self.pairs = pairs;
                return;
            }
            i += 1;
        }
        proof {
            lemma_key_place_is(before, key@, i as int);
        }
        pairs.push((key, value));
        assert(pair_views(pairs@) =~= before.push((key@, value@)));
        self.pairs = pairs;
    }
}

impl Clone for Mapping {
    fn clone(&self) -> (r: Self)
        ensures
            r@ == self@,
    {
        copy_mapping(self)
    }
}

impl Clone for Yaml {
    fn clone(&self) -> (r: Self)
        ensures
            r@ == self@,
    {
        copy_yaml(self)
    }
}

fn copy_mapping(mapping: &Mapping) -> (r: Mapping)
    ensures
        r@ == mapping@,
    decreases mapping,
{
    proof {
        use_type_invariant(mapping);
    }
    let mut pairs: Vec<(Yaml, Yaml)> = Vec::new();
    let mut i: usize = 0;
    while i < mapping.pairs.len()
        invariant
            i <= mapping.pairs@.len(),
            pairs@.len() == i,
            forall|j: int|
                0 <= j < i ==> (#[trigger] pairs@[j]).0@ == mapping.pairs@[j].0@ && pairs@[j].1@
                    == mapping.pairs@[j].1@,
        decreases mapping.pairs@.len() - i,
    {
        let key = copy_yaml(&mapping.pairs[i].0);
        let value = copy_yaml(&mapping.pairs[i].1);
        pairs.push((key, value));
        i += 1;
    }
    assert(pair_views(pairs@) =~= mapping@);
    Mapping { pairs }
}

fn copy_yaml(value: &Yaml) -> (r: Yaml)
    ensures
        r@ == value@,
    decreases value,
{
    let r = match value {
        Yaml::Null => Yaml::Null,
        Yaml::Bool(b) => Yaml::Bool(*b),
        Yaml::Numeric(n) => Yaml::Numeric(n.clone()),
        Yaml::Text(s) => Yaml::Text(s.clone()),
        Yaml::Sequence(items) => {
            let mut out: Vec<Yaml> = Vec::new();
            let mut i: usize = 0;
            while i < items.len()
                invariant
                    i <= items@.len(),
                    out@.len() == i,
                    forall|j: int| 0 <= j < i ==> (#[trigger] out@[j])@ == items@[j]@,
                    decreases_to!(value => items),
                decreases items@.len() - i,
            {
                out.push(copy_yaml(&items[i]));
                i += 1;
            }
            assert(value_views(out@) =~= value_views(items@));
            Yaml::Sequence(out)
        },
        Yaml::Mapping(mapping) => Yaml::Mapping(copy_mapping(mapping)),
        Yaml::Tagged(tagged) => {
            let tag = tagged.tag.clone();
            let inner = copy_yaml(&tagged.value);
            Yaml::Tagged(Box::new(TaggedValue { tag, value: inner }))
        },
    };
    proof {
        lemma_value_view(value);
        lemma_value_view(&r);
    }
    r
}

impl Yaml {
    /// The null value.
    pub fn null() -> (r: Yaml)
        ensures
            r@ == YamlView::Null,
    {
        Yaml::Null
    }

    /// A flag as a value.
    pub fn flag(flag: bool) -> (r: Yaml)
        ensures
            r@ == YamlView::Bool(flag),
    {
        Yaml::Bool(flag)
    }

    /// A text as a value.
    pub fn text(text: &str) -> (r: Yaml)
        ensures
            r@ == YamlView::Text(text@),
    {
        Yaml::Text(text.to_owned())
    }

    /// A list as a value.
    pub fn list(items: Vec<Yaml>) -> (r: Yaml)
        ensures
            r@ == YamlView::Sequence(value_views(items@)),
    {
        let r = Yaml::Sequence(items);
        proof {
            lemma_value_view(&r);
        }
        r
    }

    /// A mapping as a value.
    pub fn mapping(mapping: Mapping) -> (r: Yaml)
        ensures
            r@ == YamlView::Mapping(mapping@),
    {
        let r = Yaml::Mapping(mapping);
        proof {
            lemma_value_view(&r);
        }
        r
    }

    /// Whether two values are equal.
    pub fn same_as(&self, other: &Yaml) -> (r: bool)
        ensures
            r == same(self@, other@),
        decreases self,
    {
        proof {
            lemma_value_view(self);
            lemma_value_view(other);
        }
        match (self, other) {
            (Yaml::Null, Yaml::Null) => true,
            (Yaml::Bool(a), Yaml::Bool(b)) => *a == *b,
            (Yaml::Numeric(a), Yaml::Numeric(b)) => a.same_as(b),
            (Yaml::Text(a), Yaml::Text(b)) => *a == *b,
            (Yaml::Sequence(a), Yaml::Sequence(b)) => {
                if a.len() != b.len() {
                    return false;
                }
                let mut i: usize = 0;
                while i < a.len()
                    invariant
                        i <= a@.len(),
                        a@.len() == b@.len(),
                        forall|j: int| 0 <= j < i ==> same((#[trigger] a@[j])@, b@[j]@),
                        decreases_to!(self => a),
                        self@ == YamlView::Sequence(value_views(a@)),
                        other@ == YamlView::Sequence(value_views(b@)),
                    decreases a@.len() - i,
                {
                    if !a[i].same_as(&b[i]) {
                        assert(!same(value_views(a@)[i as int], value_views(b@)[i as int]));
                        return false;
                    }
                    i += 1;
                }
                assert forall|j: int| 0 <= j < value_views(a@).len() implies same(
                    #[trigger] value_views(a@)[j],
                    value_views(b@)[j],
                ) by {
                    assert(same(a@[j]@, b@[j]@));
                }
                true
            },
            (Yaml::Mapping(a), Yaml::Mapping(b)) => {
                if a.len() != b.len() {
                    return false;
                }
                let mut i: usize = 0;
                while i < a.pairs.len()
                    invariant
                        i <= a@.len(),
                        a@.len() == b@.len(),
                        a@ == pair_views(a.pairs@),
                        b@ == pair_views(b.pairs@),
                        forall|k: int| 0 <= k < i ==> pair_among(#[trigger] a@[k], b@),
                        decreases_to!(self => a),
                        self@ == YamlView::Mapping(a@),
                        other@ == YamlView::Mapping(b@),
                    decreases a@.len() - i,
                {
                    if !pair_in(a, i, b) {
                        assert(!pair_among(a@[i as int], b@));
                        return false;
                    }
                    i += 1;
                }
                true
            },
            (Yaml::Tagged(a), Yaml::Tagged(b)) => a.tag.is(b.tag.name().as_str())
                && a.value.same_as(&b.value),
            _ => false,
        }
    }
}

/// Whether `mapping` holds a pair equal to the one at `index` of `source`.
fn pair_in(source: &Mapping, index: usize, mapping: &Mapping) -> (r: bool)
    requires
        index < source@.len(),
    ensures
        r == pair_among(source@[index as int], mapping@),
    decreases source,
{
    let mut i: usize = 0;
    while i < mapping.pairs.len()
        invariant
            i <= mapping.pairs@.len(),
            index < source.pairs@.len(),
            forall|j: int|
                0 <= j < i ==> !(same(source@[index as int].0, (#[trigger] mapping@[j]).0) && same(
                    source@[index as int].1,
                    mapping@[j].1,
                )),
        decreases mapping.pairs@.len() - i,
    {
        if source.pairs[index].0.same_as(&mapping.pairs[i].0) && source.pairs[index].1.same_as(
            &mapping.pairs[i].1,
        ) {
            assert(same(source@[index as int].0, mapping@[i as int].0));
            return true;
        }
        i += 1;
    }
    false
}

} // verus!
