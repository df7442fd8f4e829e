//! JSON values as the library reads them, and the few ways in which it reads them.
use crate::percent::{code_of_bits, Percent};
use crate::text::{same_text, str_opt, text_opt};
use vstd::prelude::*;

verus! {

/// What a JSON number says as an integer.
#[derive(Clone, Copy, Debug, PartialEq, Eq, Structural)]
pub enum Whole {
    /// A non-negative integer.
    Unsigned(u64),
    /// A negative integer.
    Negative(i64),
    /// A number with a fraction or an exponent, cut towards zero and to the `i64` range.
    Truncated(i64),
}

/// A JSON number: its reading as an integer, and the bits of its reading as a double.
#[derive(Clone, Copy, Debug, PartialEq, Eq, Structural)]
pub struct JsonNumber {
    pub whole: Whole,
    pub bits: u64,
}

#[derive(Debug)]
pub enum Json {
    Null,
    Bool(bool),
    Number(JsonNumber),
    Text(String),
    Array(Vec<Json>),
    Object(Vec<(String, Json)>),
}

/// The mathematical value of a [`Json`].
pub enum JsonView {
    Null,
    Bool(bool),
    Number(JsonNumber),
    Text(Seq<char>),
    Array(Seq<JsonView>),
    Object(Seq<(Seq<char>, JsonView)>),
}

pub open spec fn json_view(value: Json) -> JsonView
    decreases value,
{
    match value {
        Json::Null => JsonView::Null,
        Json::Bool(b) => JsonView::Bool(b),
        Json::Number(n) => JsonView::Number(n),
        Json::Text(s) => JsonView::Text(s@),
        Json::Array(items) => JsonView::Array(
            Seq::new(
                items@.len(),
                |i: int|
                    if 0 <= i < items@.len() {
                        json_view(items@[i])
                    } else {
                        JsonView::Null
                    },
            ),
        ),
        Json::Object(entries) => JsonView::Object(
            Seq::new(
                entries@.len(),
                |i: int|
                    if 0 <= i < entries@.len() {
                        (entries@[i].0@, json_view(entries@[i].1))
                    } else {
                        (Seq::empty(), JsonView::Null)
                    },
            ),
        ),
    }
}

impl View for Json {
    type V = JsonView;

    open spec fn view(&self) -> JsonView {
        json_view(*self)
    }
}

pub open spec fn opt_view(value: Option<&Json>) -> Option<JsonView> {
    match value {
        Some(value) => Some(value@),
        None => None,
    }
}

/// The value of the first entry with the given key.
pub open spec fn entry(entries: Seq<(Seq<char>, JsonView)>, key: Seq<char>) -> Option<JsonView>
    decreases entries.len(),
{
    if entries.len() == 0 {
        None
    } else if entries.first().0 == key {
        Some(entries.first().1)
    } else {
        entry(entries.drop_first(), key)
    }
}

/// The value under `key` of an object.
pub open spec fn field(value: JsonView, key: Seq<char>) -> Option<JsonView> {
    match value {
        JsonView::Object(entries) => entry(entries, key),
        _ => None,
    }
}

/// The value under `key`, where there is a value at all.
pub open spec fn field_of(value: Option<JsonView>, key: Seq<char>) -> Option<JsonView> {
    match value {
        Some(value) => field(value, key),
        None => None,
    }
}

/// The value under `first`, or else the one under `second`.
pub open spec fn either_field(value: JsonView, first: Seq<char>, second: Seq<char>) -> Option<
    JsonView,
> {
    match field(value, first) {
        Some(found) => Some(found),
        None => field(value, second),
    }
}

pub open spec fn either_field_of(
    value: Option<JsonView>,
    first: Seq<char>,
    second: Seq<char>,
) -> Option<JsonView> {
    match value {
        Some(value) => either_field(value, first, second),
        None => None,
    }
}

pub open spec fn text_of(value: Option<JsonView>) -> Option<Seq<char>> {
    match value {
        Some(JsonView::Text(s)) => Some(s),
        _ => None,
    }
}

/// The integer that a number is read as: what exceeds `i64` wraps around.
pub open spec fn whole_value(whole: Whole) -> int {
    match whole {
        Whole::Unsigned(n) => if n > i64::MAX {
            n - 0x1_0000_0000_0000_0000
        } else {
            n as int
        },
        Whole::Negative(n) => n as int,
        Whole::Truncated(n) => n as int,
    }
}

pub open spec fn integer_of(value: Option<JsonView>) -> Option<int> {
    match value {
        Some(JsonView::Number(n)) => Some(whole_value(n.whole)),
        _ => None,
    }
}

/// The code of the double that a number is read as.
pub open spec fn percent_code_of(value: Option<JsonView>) -> Option<int> {
    match value {
        Some(JsonView::Number(n)) => Some(code_of_bits(n.bits)),
        _ => None,
    }
}

pub open spec fn items_of(value: Option<JsonView>) -> Option<Seq<JsonView>> {
    match value {
        Some(JsonView::Array(items)) => Some(items),
        _ => None,
    }
}

pub open spec fn entries_of(value: Option<JsonView>) -> Option<Seq<(Seq<char>, JsonView)>> {
    match value {
        Some(JsonView::Object(entries)) => Some(entries),
        _ => None,
    }
}

/// `serde_json::Value`, the tree that serde_json parses into.
#[verifier::external_type_specification]
#[verifier::external_body]
pub struct ExValue(serde_json::Value);

/// `serde_json::Number`, a number of such a tree.
#[verifier::external_type_specification]
#[verifier::external_body]
pub struct ExNumber(serde_json::Number);

/// What `serde_json::from_str` reads from a text: the value, or the message of its error.
pub uninterp spec fn parsed_json(text: Seq<char>) -> Result<JsonView, Seq<char>>;

pub open spec fn parse_view(result: Result<Json, String>) -> Result<JsonView, Seq<char>> {
    match result {
        Ok(value) => Ok(value@),
        Err(message) => Err(message@),
    }
}

/// `serde_json::from_str` into a `serde_json::Value`: whether the text is a JSON value and
/// which one, or else the error's message, depends on the text alone.
#[verifier::external_body]
pub(crate) fn parse_json(text: &str) -> (r: Result<Json, String>)
    ensures
        parse_view(r) == parsed_json(text@),
{
    match serde_json::from_str::<serde_json::Value>(text) {
        Ok(value) => Ok(json_of_value(value)),
        Err(error) => Err(error.to_string()),
    }
}

/// A `serde_json::Value` node by node, each variant as the variant of the same name.
#[verifier::external_body]
fn json_of_value(value: serde_json::Value) -> Json {
    match value {
        serde_json::Value::Null => Json::Null,
        serde_json::Value::Bool(b) => Json::Bool(b),
        serde_json::Value::Number(n) => Json::Number(json_number(&n)),
        serde_json::Value::String(s) => Json::Text(s),
        serde_json::Value::Array(items) => Json::Array(
            items.into_iter().map(json_of_value).collect(),
        ),
        serde_json::Value::Object(entries) => Json::Object(
            entries.into_iter().map(|(key, value)| (key, json_of_value(value))).collect(),
        ),
    }
}

/// A `serde_json::Number`: one of its three kinds, with `as_f64` beside it.
#[verifier::external_body]
fn json_number(number: &serde_json::Number) -> JsonNumber {
    let double = number.as_f64().unwrap_or_default();
    let whole = match (number.as_u64(), number.as_i64()) {
        (Some(n), _) => Whole::Unsigned(n),
        (None, Some(n)) => Whole::Negative(n),
        (None, None) => Whole::Truncated(double as i64),
    };
    JsonNumber { whole, bits: double.to_bits() }
}

/// The views of a list of values.
pub open spec fn views(items: Seq<Json>) -> Seq<JsonView> {
    Seq::new(items.len(), |i: int| items[i]@)
}

/// The keys and the views of the values of an object.
pub open spec fn entry_views(entries: Seq<(String, Json)>) -> Seq<(Seq<char>, JsonView)> {
    Seq::new(entries.len(), |i: int| (entries[i].0@, entries[i].1@))
}

proof fn lemma_entry_skips(entries: Seq<(Seq<char>, JsonView)>, key: Seq<char>, from: int)
    requires
        0 <= from <= entries.len(),
        forall|k: int| 0 <= k < from ==> (#[trigger] entries[k]).0 != key,
    ensures
        entry(entries, key) == entry(entries.subrange(from, entries.len() as int), key),
    decreases from,
{
    if from == 0 {
        assert(entries.subrange(0, entries.len() as int) =~= entries);
    } else {
        assert(entries[0].0 != key);
        let rest = entries.drop_first();
        assert forall|k: int| 0 <= k < from - 1 implies (#[trigger] rest[k]).0 != key by {
            assert(rest[k] == entries[k + 1]);
        }
        lemma_entry_skips(rest, key, from - 1);
        assert(rest.subrange(from - 1, rest.len() as int) =~= entries.subrange(
            from,
            entries.len() as int,
        ));
    }
}

impl Json {
    pub fn is_null(&self) -> (r: bool)
        ensures
            r == (self@ == JsonView::Null),
    {
        match self {
            Json::Null => true,
            _ => false,
        }
    }

    /// The value under `key`.
    pub fn get(&self, key: &str) -> (r: Option<&Json>)
        ensures
            opt_view(r) == field(self@, key@),
    {
        match self {
            Json::Object(entries) => {
                let ghost views = entry_views(entries@);
                assert(self@ == JsonView::Object(views)) by {
                    assert(self@->Object_0 =~= views);
                }
                let mut i: usize = 0;
                while i < entries.len()
                    invariant
                        i <= entries.len(),
                        views == entry_views(entries@),
                        self@ == JsonView::Object(views),
                        forall|k: int| 0 <= k < i ==> (#[trigger] views[k]).0 != key@,
                    decreases entries.len() - i,
                {
                    if same_text(entries[i].0.as_str(), key) {
                        proof {
                            lemma_entry_skips(views, key@, i as int);
                            assert(views.subrange(i as int, views.len() as int).first()
                                == views[i as int]);
                        }
                        return Some(&entries[i].1);
                    }
                    i += 1;
                }
                proof {
                    lemma_entry_skips(views, key@, i as int);
                }
                None
            },
            _ => None,
        }
    }

    /// The value under `first`, or else the one under `second`.
    pub fn get_either(&self, first: &str, second: &str) -> (r: Option<&Json>)
        ensures
            opt_view(r) == either_field(self@, first@, second@),
    {
        match self.get(first) {
            Some(found) => Some(found),
            None => self.get(second),
        }
    }

    pub fn items(&self) -> (r: Option<&Vec<Json>>)
        ensures
            match r {
                Some(items) => items_of(Some(self@)) == Some(views(items@)),
                None => items_of(Some(self@)) is None,
            },
    {
        match self {
            Json::Array(items) => {
                assert(self@->Array_0 =~= views(items@));
                Some(items)
            },
            _ => None,
        }
    }

    pub fn entries(&self) -> (r: Option<&Vec<(String, Json)>>)
        ensures
            match r {
                Some(entries) => entries_of(Some(self@)) == Some(entry_views(entries@)),
                None => entries_of(Some(self@)) is None,
            },
    {
        match self {
            Json::Object(entries) => {
                assert(self@->Object_0 =~= entry_views(entries@));
                Some(entries)
            },
            _ => None,
        }
    }
}

/// The value under `key`, where there is a value at all.
pub fn get_of<'a>(value: Option<&'a Json>, key: &str) -> (r: Option<&'a Json>)
    ensures
        opt_view(r) == field_of(opt_view(value), key@),
{
    match value {
        Some(value) => value.get(key),
        None => None,
    }
}

pub fn get_either_of<'a>(value: Option<&'a Json>, first: &str, second: &str) -> (r: Option<
    &'a Json,
>)
    ensures
        opt_view(r) == either_field_of(opt_view(value), first@, second@),
{
    match value {
        Some(value) => value.get_either(first, second),
        None => None,
    }
}

/// The text that a value is.
pub fn as_text<'a>(value: Option<&'a Json>) -> (r: Option<&'a str>)
    ensures
        str_opt(r) == text_of(opt_view(value)),
{
    match value {
        Some(Json::Text(s)) => Some(s.as_str()),
        _ => None,
    }
}

/// The text that a value is, as a text of its own.
pub fn string_value(value: Option<&Json>) -> (r: Option<String>)
    ensures
        text_opt(r) == text_of(opt_view(value)),
{
    match value {
        Some(Json::Text(s)) => Some(s.clone()),
        _ => None,
    }
}

/// Whether a value is the given text.
pub fn is_text(value: Option<&Json>, text: &str) -> (r: bool)
    ensures
        r == (text_of(opt_view(value)) == Some(text@)),
{
    match as_text(value) {
        Some(found) => same_text(found, text),
        None => false,
    }
}

/// The integer that a number is read as.
pub fn number_i64(value: Option<&Json>) -> (r: Option<i64>)
    ensures
        match r {
            Some(n) => integer_of(opt_view(value)) == Some(n as int),
            None => integer_of(opt_view(value)) is None,
        },
{
    match value {
        Some(Json::Number(n)) => Some(
            match n.whole {
                Whole::Unsigned(n) => if n > 0x7fff_ffff_ffff_ffff {
                    (n as i128 - 0x1_0000_0000_0000_0000) as i64
                } else {
                    n as i64
                },
                Whole::Negative(n) => n,
                Whole::Truncated(n) => n,
            },
        ),
        _ => None,
    }
}

/// The double that a number is read as.
pub fn number_percent(value: Option<&Json>) -> (r: Option<Percent>)
    ensures
        match r {
            Some(p) => percent_code_of(opt_view(value)) == Some(p.code as int),
            None => percent_code_of(opt_view(value)) is None,
        },
{
    match value {
        Some(Json::Number(n)) => Some(Percent::from_bits(n.bits)),
        _ => None,
    }
}

/// The value under a key is that of the first entry with the key, and there is none only where
/// no entry has it.
pub proof fn lemma_value_is_that_of_the_key(
    entries: Seq<(Seq<char>, JsonView)>,
    key: Seq<char>,
    at: int,
)
    requires
        0 <= at < entries.len(),
        entries[at].0 == key,
        forall|k: int| 0 <= k < at ==> (#[trigger] entries[k]).0 != key,
    ensures
        field(JsonView::Object(entries), key) == Some(entries[at].1),
    decreases at,
{
    if at > 0 {
        assert(entries[0].0 != key);
        let rest = entries.drop_first();
        assert forall|k: int| 0 <= k < at - 1 implies (#[trigger] rest[k]).0 != key by {
            assert(rest[k] == entries[k + 1]);
        }
        lemma_value_is_that_of_the_key(rest, key, at - 1);
    }
}

/// A key that no entry has names no value, and nothing but an object has values under keys.
pub proof fn lemma_missing_key_has_no_value(entries: Seq<(Seq<char>, JsonView)>, key: Seq<char>)
    requires
        forall|k: int| 0 <= k < entries.len() ==> (#[trigger] entries[k]).0 != key,
    ensures
        field(JsonView::Object(entries), key) is None,
        forall|value: JsonView| !(value is Object) ==> #[trigger] field(value, key) is None,
    decreases entries.len(),
{
    if entries.len() > 0 {
        assert(entries[0].0 != key);
        let rest = entries.drop_first();
        assert forall|k: int| 0 <= k < rest.len() implies (#[trigger] rest[k]).0 != key by {
            assert(rest[k] == entries[k + 1]);
        }
        lemma_missing_key_has_no_value(rest, key);
    }
}

/// Of two keys the second is looked at only where the first names no value.
pub proof fn lemma_first_key_goes_first(value: JsonView, first: Seq<char>, second: Seq<char>)
    ensures
        field(value, first) is Some ==> either_field(value, first, second) == field(value, first),
        field(value, first) is None ==> either_field(value, first, second) == field(value, second),
        either_field_of(Some(value), first, second) == either_field(value, first, second),
        either_field_of(None, first, second) is None,
        field_of(Some(value), first) == field(value, first),
        field_of(None, first) is None,
{
}

/// A whole number that is in range is read as itself; one beyond it stays the same modulo the
/// span of the type. Only a number is read as one, and only a text as a text.
pub proof fn lemma_number_is_read_as_itself(n: JsonNumber)
    ensures
        ({
            let read = integer_of(Some(JsonView::Number(n)));
            &&& read is Some
            &&& i64::MIN <= read->0 <= i64::MAX
            &&& match n.whole {
                Whole::Unsigned(m) => (m <= i64::MAX ==> read->0 == m) && (m > i64::MAX ==> m
                    - read->0 == 0x1_0000_0000_0000_0000),
                Whole::Negative(m) => read->0 == m,
                Whole::Truncated(m) => read->0 == m,
            }
        }),
        integer_of(None) is None,
        text_of(None) is None,
        text_of(Some(JsonView::Number(n))) is None,
        forall|text: Seq<char>| #[trigger]
            text_of(Some(JsonView::Text(text))) == Some(text) && integer_of(
                Some(JsonView::Text(text)),
            ) is None,
        forall|value: JsonView| (#[trigger] integer_of(Some(value)) is Some) == (value is Number),
        forall|value: JsonView| (#[trigger] text_of(Some(value)) is Some) == (value is Text),
{
}

} // verus!
