//! JSON values: their model, reading and printing them, and access to fields.

use vstd::prelude::*;

use crate::text;

verus! {

/// A JSON value. Where an object names a key more than once, the last entry counts.
#[derive(Debug, PartialEq, Eq)]
pub enum Json {
    Null,
    Bool(bool),
    /// An integer from zero up.
    Unsigned(u64),
    /// An integer below zero.
    Negative(i64),
    /// Any other number, by its shortest decimal text.
    Float(String),
    Text(String),
    Array(Vec<Json>),
    Object(Vec<(String, Json)>),
}

/// The mathematical value of a [`Json`].
#[verifier::ext_equal]
pub enum JsonView {
    Null,
    Bool(bool),
    Unsigned(u64),
    Negative(i64),
    Float(Seq<char>),
    Text(Seq<char>),
    Array(Seq<JsonView>),
    Object(Map<Seq<char>, JsonView>),
}

impl Json {
    pub open spec fn view(&self) -> JsonView
        decreases self,
    {
        match self {
            Json::Null => JsonView::Null,
            Json::Bool(b) => JsonView::Bool(*b),
            Json::Unsigned(n) => JsonView::Unsigned(*n),
            Json::Negative(n) => JsonView::Negative(*n),
            Json::Float(t) => JsonView::Float(t@),
            Json::Text(t) => JsonView::Text(t@),
            Json::Array(items) => JsonView::Array(item_views(items@)),
            Json::Object(fields) => JsonView::Object(field_views(fields@)),
        }
    }
}

/// The values of a list of items.
pub open spec fn item_views(items: Seq<Json>) -> Seq<JsonView>
    decreases items,
{
    if items.len() == 0 {
        seq![]
    } else {
        item_views(items.drop_last()).push(items.last().view())
    }
}

/// The map that a list of entries stands for.
pub open spec fn field_views(fields: Seq<(String, Json)>) -> Map<Seq<char>, JsonView>
    decreases fields,
{
    if fields.len() == 0 {
        Map::empty()
    } else {
        field_views(fields.drop_last()).insert(fields.last().0@, fields.last().1.view())
    }
}

pub proof fn lemma_item_views(items: Seq<Json>)
    ensures
        item_views(items).len() == items.len(),
        forall|i: int| 0 <= i < items.len() ==> #[trigger] item_views(items)[i] == items[i]@,
    decreases items.len(),
{
    if items.len() > 0 {
        lemma_item_views(items.drop_last());
    }
}

pub proof fn lemma_field_views_finite(fields: Seq<(String, Json)>)
    ensures
        field_views(fields).dom().finite(),
    decreases fields.len(),
{
    if fields.len() > 0 {
        lemma_field_views_finite(fields.drop_last());
    }
}

/// The value under `key`, where `value` is an object that has the key.
pub open spec fn field(value: JsonView, key: Seq<char>) -> Option<JsonView> {
    match value {
        JsonView::Object(m) => if m.contains_key(key) {
            Some(m[key])
        } else {
            None
        },
        _ => None,
    }
}

/// The items, where there is a value and it is an array.
pub open spec fn array_of(value: Option<JsonView>) -> Option<Seq<JsonView>> {
    match value {
        Some(JsonView::Array(s)) => Some(s),
        _ => None,
    }
}

/// The text, where there is a value and it is a text.
pub open spec fn text_in(value: Option<JsonView>) -> Option<Seq<char>> {
    match value {
        Some(JsonView::Text(t)) => Some(t),
        _ => None,
    }
}

/// The number, where there is a value and it is an integer that 64 signed bits can hold.
pub open spec fn integer_in(value: Option<JsonView>) -> Option<i64> {
    match value {
        Some(JsonView::Unsigned(n)) => if n <= i64::MAX {
            Some(n as i64)
        } else {
            None
        },
        Some(JsonView::Negative(n)) => Some(n),
        _ => None,
    }
}

pub proof fn lemma_field_keys(fields: Seq<(String, Json)>)
    ensures
        forall|i: int| 0 <= i < fields.len() ==> field_views(fields).contains_key(
            #[trigger] fields[i].0@,
        ),
        forall|k: Seq<char>| #[trigger]
            field_views(fields).contains_key(k) ==> exists|i: int|
                0 <= i < fields.len() && #[trigger] fields[i].0@ == k,
    decreases fields.len(),
{
    if fields.len() > 0 {
        let front = fields.drop_last();
        lemma_field_keys(front);
        assert forall|i: int| 0 <= i < fields.len() implies field_views(fields).contains_key(
            #[trigger] fields[i].0@,
        ) by {
            if i < front.len() {
                assert(front[i] == fields[i]);
            }
        }
        assert forall|k: Seq<char>| #[trigger]
            field_views(fields).contains_key(k) implies exists|i: int|
            0 <= i < fields.len() && #[trigger] fields[i].0@ == k by {
            if k == fields.last().0@ {
                assert(fields[fields.len() - 1].0@ == k);
            } else {
                assert(field_views(front).contains_key(k));
                let i = choose|i: int| 0 <= i < front.len() && #[trigger] front[i].0@ == k;
                assert(fields[i].0@ == k);
            }
        }
    }
}

/// The texts of the two zeros among the floats, which are equal numbers.
pub open spec fn is_float_zero(t: Seq<char>) -> bool {
    t == "0.0"@ || t == "-0.0"@
}

/// Two values are the same: numbers by their value, arrays item by item, objects key by key.
pub open spec fn same_json(a: JsonView, b: JsonView) -> bool
    decreases a,
{
    match (a, b) {
        (JsonView::Float(s), JsonView::Float(t)) => s == t || is_float_zero(s) && is_float_zero(t),
        (JsonView::Array(s), JsonView::Array(t)) => s.len() == t.len() && forall|i: int|
            0 <= i < s.len() ==> same_json(#[trigger] s[i], t[i]),
        (JsonView::Object(s), JsonView::Object(t)) => s.dom().finite() && s.dom() == t.dom()
            && forall|k: Seq<char>| #[trigger] s.contains_key(k) ==> same_json(s[k], t[k]),
        _ => a == b,
    }
}

/// A value is the same as itself.
pub proof fn lemma_same_json_reflexive(v: JsonView, n: nat)
    requires
        printable(v, n),
    ensures
        same_json(v, v),
    decreases n,
{
    match v {
        JsonView::Array(s) => {
            assert forall|i: int| 0 <= i < s.len() implies same_json(#[trigger] s[i], s[i]) by {
                assert(printable(s[i], (n - 1) as nat));
                lemma_same_json_reflexive(s[i], (n - 1) as nat);
            }
        },
        JsonView::Object(m) => {
            assert forall|k: Seq<char>| #[trigger] m.contains_key(k) implies same_json(
                m[k],
                m[k],
            ) by {
                assert(printable(m[k], (n - 1) as nat));
                lemma_same_json_reflexive(m[k], (n - 1) as nat);
            }
        },
        _ => {},
    }
}

// ---------------------------------------------------------------------------
// Reading and printing
// ---------------------------------------------------------------------------

/// A value as the JSON crate holds it.
#[verifier::external_type_specification]
#[verifier::external_body]
pub struct ExValue(serde_json::Value);

/// What a value of the JSON crate holds.
pub uninterp spec fn value_held(value: serde_json::Value) -> JsonView;

/// What the JSON crate reads from a text; `None` where the text is not JSON.
pub uninterp spec fn parsed(text: Seq<char>) -> Option<JsonView>;

/// How the JSON crate prints a value, with line breaks and indentation.
pub uninterp spec fn printed(value: JsonView) -> Seq<char>;

/// No more than `n` containers lie within one another, each number below zero is one, and the
/// text of each float is what that float is printed as.
pub open spec fn printable(value: JsonView, n: nat) -> bool
    decreases n,
{
    match value {
        JsonView::Negative(i) => i < 0,
        JsonView::Float(t) => parsed(t) == Some(value),
        JsonView::Array(s) => n > 0 && forall|i: int|
            0 <= i < s.len() ==> printable(#[trigger] s[i], (n - 1) as nat),
        JsonView::Object(m) => n > 0 && m.dom().finite() && forall|k: Seq<char>|
            #[trigger] m.contains_key(k) ==> printable(m[k], (n - 1) as nat),
        _ => true,
    }
}

/// Such a value, no deeper than what the JSON crate reads.
pub open spec fn readable(value: JsonView) -> bool {
    printable(value, 127)
}

/// What is printed of the value reads back as the value.
pub open spec fn reads_back(value: JsonView) -> bool {
    parsed(printed(value)) == Some(value)
}

/// `serde_json::from_str` into a `serde_json::Value`: a value where the text is JSON with at
/// most 127 containers within one another, and an error, here `None`, where it is not. Such a
/// value holds integers as 64 bit integers, the negative ones apart, and each other number as a
/// float whose text reads back as the same float.
#[verifier::external_body]
fn read_value(text: &str) -> (r: Option<serde_json::Value>)
    ensures
        match r {
            Some(v) => parsed(text@) == Some(value_held(v)) && readable(value_held(v)),
            None => parsed(text@) is None,
        },
{
    serde_json::from_str::<serde_json::Value>(text).ok()
}

/// `serde_json::to_string_pretty` on a `serde_json::Value`, which does not fail: a text that
/// depends on what the value holds, and that reads back as the same where it is printable.
#[verifier::external_body]
fn print_value(value: &serde_json::Value) -> (r: String)
    ensures
        r@ == printed(value_held(*value)),
        readable(value_held(*value)) ==> parsed(r@) == Some(value_held(*value)),
{
    serde_json::to_string_pretty(value).unwrap_or_default()
}

/// Moves a `serde_json::Value` into a [`Json`], variant by variant; a float becomes the text
/// that `serde_json::Number` displays.
#[verifier::external_body]
fn from_value(value: serde_json::Value) -> (r: Json)
    ensures
        r@ == value_held(value),
{
    match value {
        serde_json::Value::Null => Json::Null,
        serde_json::Value::Bool(b) => Json::Bool(b),
        serde_json::Value::Number(n) => match (n.as_u64(), n.as_i64()) {
            (Some(u), _) => Json::Unsigned(u),
            (None, Some(i)) => Json::Negative(i),
            (None, None) => Json::Float(n.to_string()),
        },
        serde_json::Value::String(t) => Json::Text(t),
        serde_json::Value::Array(v) => Json::Array(v.into_iter().map(from_value).collect()),
        serde_json::Value::Object(m) => {
            Json::Object(m.into_iter().map(|(k, v)| (k, from_value(v))).collect())
        },
    }
}

/// Builds the `serde_json::Value` of a [`Json`], variant by variant; the text of a float is read
/// by `serde_json::from_str`, and the entries of an object go in order through
/// `serde_json::Map::insert`, which replaces the value of a key that is there. Stated of values
/// whose floats are such texts and whose numbers below zero are so.
#[verifier::external_body]
fn to_value(json: &Json) -> (r: serde_json::Value)
    ensures
        numbers_hold(json@) ==> value_held(r) == json@,
{
    match json {
        Json::Null => serde_json::Value::Null,
        Json::Bool(b) => serde_json::Value::from(*b),
        Json::Unsigned(n) => serde_json::Value::from(*n),
        Json::Negative(n) => serde_json::Value::from(*n),
        Json::Float(t) => serde_json::from_str(t).unwrap_or_default(),
        Json::Text(t) => serde_json::Value::from(t.as_str()),
        Json::Array(v) => serde_json::Value::Array(v.iter().map(to_value).collect()),
        Json::Object(m) => {
            let mut fields = serde_json::Map::new();
            for (k, v) in m { fields.insert(k.clone(), to_value(v)); }
            serde_json::Value::Object(fields)
        },
    }
}

/// Each number below zero is one, and the text of each float is what that float is printed as.
pub open spec fn numbers_hold(value: JsonView) -> bool {
    exists|n: nat| printable(value, n)
}

/// Reads a JSON text.
pub fn parse_json(text: &str) -> (r: Option<Json>)
    ensures
        match r {
            Some(v) => parsed(text@) == Some(v@) && readable(v@),
            None => parsed(text@) is None,
        },
{
    match read_value(text) {
        Some(v) => Some(from_value(v)),
        None => None,
    }
}

/// Prints a value with line breaks and indentation.
pub fn pretty(json: &Json) -> (r: String)
    ensures
        numbers_hold(json@) ==> r@ == printed(json@),
        readable(json@) ==> r@ == printed(json@) && reads_back(json@),
{
    print_value(&to_value(json))
}

// ---------------------------------------------------------------------------
// Access
// ---------------------------------------------------------------------------

/// The position of the entry that counts for `key`.
fn entry_of(fields: &Vec<(String, Json)>, key: &str) -> (r: Option<usize>)
    ensures
        match r {
            Some(i) => {
                &&& i < fields@.len()
                &&& field_views(fields@).contains_key(key@)
                &&& field_views(fields@)[key@] == fields@[i as int].1@
            },
            None => !field_views(fields@).contains_key(key@),
        },
{
    let mut n: usize = fields.len();
    assert(fields@.take(n as int) =~= fields@);
    while n > 0
        invariant
            n <= fields@.len(),
            field_views(fields@).contains_key(key@) == field_views(
                fields@.take(n as int),
            ).contains_key(key@),
            field_views(fields@).contains_key(key@) ==> field_views(fields@)[key@] == field_views(
                fields@.take(n as int),
            )[key@],
        decreases n,
    {
        assert(fields@.take(n as int).drop_last() =~= fields@.take(n - 1));
        if text::same_text(fields[n - 1].0.as_str(), key) {
            return Some(n - 1);
        }
        n -= 1;
    }
    None
}

impl Json {
    /// The value under `key`, where this is an object that has the key.
    pub fn get(&self, key: &str) -> (r: Option<&Json>)
        ensures
            match r {
                Some(v) => field(self@, key@) == Some(v@),
                None => field(self@, key@) is None,
            },
    {
        match self {
            Json::Object(fields) => match entry_of(fields, key) {
                Some(i) => Some(&fields[i].1),
                None => None,
            },
            _ => None,
        }
    }

    /// The text under `key`, where this is an object that has a text there.
    pub fn get_text(&self, key: &str) -> (r: Option<String>)
        ensures
            text::opt_text(r) == text_in(field(self@, key@)),
    {
        match self.get(key) {
            Some(Json::Text(t)) => Some(t.clone()),
            _ => None,
        }
    }

    /// The number under `key`, where this is an object that has such an integer there.
    pub fn get_i64(&self, key: &str) -> (r: Option<i64>)
        ensures
            r == integer_in(field(self@, key@)),
    {
        match self.get(key) {
            Some(Json::Unsigned(n)) => if *n <= i64::MAX as u64 {
                Some(*n as i64)
            } else {
                None
            },
            Some(Json::Negative(n)) => Some(*n),
            _ => None,
        }
    }

    /// The items under `key`, where this is an object that has an array there.
    pub fn get_array(&self, key: &str) -> (r: Option<&Vec<Json>>)
        ensures
            match r {
                Some(items) => array_of(field(self@, key@)) == Some(item_views(items@)),
                None => array_of(field(self@, key@)) is None,
            },
    {
        match self.get(key) {
            Some(Json::Array(items)) => Some(items),
            _ => None,
        }
    }

    /// Whether the two values are the same.
    pub fn same(&self, other: &Json) -> (r: bool)
        ensures
            r == same_json(self@, other@),
        decreases self,
    {
        match (self, other) {
            (Json::Null, Json::Null) => true,
            (Json::Bool(a), Json::Bool(b)) => *a == *b,
            (Json::Unsigned(a), Json::Unsigned(b)) => *a == *b,
            (Json::Negative(a), Json::Negative(b)) => *a == *b,
            (Json::Float(a), Json::Float(b)) => text::same_text(a.as_str(), b.as_str()) || float_zero(
                a.as_str(),
            ) && float_zero(b.as_str()),
            (Json::Text(a), Json::Text(b)) => text::same_text(a.as_str(), b.as_str()),
            (Json::Array(a), Json::Array(b)) => same_items(a, b),
            (Json::Object(a), Json::Object(b)) => same_fields(a, b),
            _ => false,
        }
    }

    /// A copy of this value.
    pub fn copy(&self) -> (r: Json)
        ensures
            r@ == self@,
        decreases self,
    {
        match self {
            Json::Null => Json::Null,
            Json::Bool(b) => Json::Bool(*b),
            Json::Unsigned(n) => Json::Unsigned(*n),
            Json::Negative(n) => Json::Negative(*n),
            Json::Float(t) => Json::Float(t.clone()),
            Json::Text(t) => Json::Text(t.clone()),
            Json::Array(items) => Json::Array(copy_items(items)),
            Json::Object(fields) => Json::Object(copy_fields(fields)),
        }
    }
}

fn float_zero(t: &str) -> (r: bool)
    ensures
        r == is_float_zero(t@),
{
    text::same_text(t, "0.0") || text::same_text(t, "-0.0")
}

fn same_items(a: &Vec<Json>, b: &Vec<Json>) -> (r: bool)
    ensures
        r == same_json(JsonView::Array(item_views(a@)), JsonView::Array(item_views(b@))),
    decreases a,
{
    let ghost x = item_views(a@);
    let ghost y = item_views(b@);
    proof {
        lemma_item_views(a@);
        lemma_item_views(b@);
    }
    if a.len() != b.len() {
        return false;
    }
    let mut i: usize = 0;
    while i < a.len()
        invariant
            i <= a@.len(),
            a@.len() == b@.len(),
            x == item_views(a@),
            y == item_views(b@),
            x.len() == a@.len(),
            y.len() == b@.len(),
            forall|j: int| 0 <= j < a@.len() ==> #[trigger] x[j] == a@[j]@,
            forall|j: int| 0 <= j < b@.len() ==> #[trigger] y[j] == b@[j]@,
            forall|j: int| 0 <= j < i ==> same_json(#[trigger] x[j], y[j]),
        decreases a@.len() - i,
    {
        assert(decreases_to!(a => a@[i as int]));
        if !a[i].same(&b[i]) {
            assert(!same_json(x[i as int], y[i as int]));
            return false;
        }
        i += 1;
    }
    true
}

fn same_fields(a: &Vec<(String, Json)>, b: &Vec<(String, Json)>) -> (r: bool)
    ensures
        r == same_json(JsonView::Object(field_views(a@)), JsonView::Object(field_views(b@))),
    decreases a,
{
    let ghost x = field_views(a@);
    let ghost y = field_views(b@);
    proof {
        lemma_field_keys(a@);
        lemma_field_keys(b@);
        lemma_field_views_finite(a@);
    }
    let mut i: usize = 0;
    while i < b.len()
        invariant
            i <= b@.len(),
            x == field_views(a@),
            y == field_views(b@),
            forall|j: int| 0 <= j < b@.len() ==> y.contains_key(#[trigger] b@[j].0@),
            forall|j: int| 0 <= j < i ==> x.contains_key(#[trigger] b@[j].0@),
        decreases b@.len() - i,
    {
        if entry_of(a, b[i].0.as_str()).is_none() {
            assert(y.contains_key(b@[i as int].0@));
            return false;
        }
        i += 1;
    }
    let mut k: usize = 0;
    while k < a.len()
        invariant
            k <= a@.len(),
            x == field_views(a@),
            y == field_views(b@),
            forall|j: int| 0 <= j < a@.len() ==> x.contains_key(#[trigger] a@[j].0@),
            forall|j: int|
                0 <= j < k ==> y.contains_key(#[trigger] a@[j].0@) && same_json(
                    x[a@[j].0@],
                    y[a@[j].0@],
                ),
        decreases a@.len() - k,
    {
        let ghost key = a@[k as int].0@;
        assert(x.contains_key(key));
        match (entry_of(a, a[k].0.as_str()), entry_of(b, a[k].0.as_str())) {
            (Some(m), Some(n)) => {
                assert(decreases_to!(a => a@[m as int]));
                if !a[m].1.same(&b[n].1) {
                    assert(!same_json(x[key], y[key]));
                    return false;
                }
            },
            _ => {
                return false;
            },
        }
        k += 1;
    }
    proof {
        assert(x.dom() =~= y.dom());
        assert forall|key: Seq<char>| #[trigger] x.contains_key(key) implies same_json(
            x[key],
            y[key],
        ) by {
            let j = choose|j: int| 0 <= j < a@.len() && #[trigger] a@[j].0@ == key;
            assert(y.contains_key(a@[j].0@));
        }
    }
    true
}

pub fn copy_items(items: &Vec<Json>) -> (r: Vec<Json>)
    ensures
        item_views(r@) == item_views(items@),
    decreases items,
{
    let mut out: Vec<Json> = Vec::new();
    let mut i: usize = 0;
    while i < items.len()
        invariant
            i <= items@.len(),
            item_views(out@) == item_views(items@.take(i as int)),
        decreases items@.len() - i,
    {
        let ghost before = out@;
        assert(decreases_to!(items => items@[i as int]));
        out.push(items[i].copy());
        assert(out@.drop_last() =~= before);
        assert(items@.take(i + 1).drop_last() =~= items@.take(i as int));
        i += 1;
    }
    assert(items@.take(items@.len() as int) =~= items@);
    out
}

pub fn copy_fields(fields: &Vec<(String, Json)>) -> (r: Vec<(String, Json)>)
    ensures
        field_views(r@) == field_views(fields@),
    decreases fields,
{
    let mut out: Vec<(String, Json)> = Vec::new();
    let mut i: usize = 0;
    while i < fields.len()
        invariant
            i <= fields@.len(),
            field_views(out@) == field_views(fields@.take(i as int)),
        decreases fields@.len() - i,
    {
        let ghost before = out@;
        assert(decreases_to!(fields => fields@[i as int]));
        out.push((fields[i].0.clone(), fields[i].1.copy()));
        assert(out@.drop_last() =~= before);
        assert(fields@.take(i + 1).drop_last() =~= fields@.take(i as int));
        i += 1;
    }
    assert(fields@.take(fields@.len() as int) =~= fields@);
    out
}

/// The entries without those for `key`.
pub fn without_field(fields: Vec<(String, Json)>, key: &str) -> (r: Vec<(String, Json)>)
    ensures
        field_views(r@) == field_views(fields@).remove(key@),
{
    let mut rest = fields;
    let mut kept: Vec<(String, Json)> = Vec::new();
    let ghost mut taken: Seq<(String, Json)> = seq![];
    assert(field_views(kept@) =~= field_views(taken).remove(key@));
    while rest.len() > 0
        invariant
            taken + rest@ == fields@,
            field_views(kept@) == field_views(taken).remove(key@),
        decreases rest@.len(),
    {
        let ghost before = rest@;
        let entry = rest.remove(0);
        let ghost kept_before = kept@;
        let ghost taken_before = taken;
        proof {
            taken = taken.push(entry);
            assert(taken.drop_last() =~= taken_before);
            assert(taken + rest@ =~= fields@);
        }
        if !text::same_text(entry.0.as_str(), key) {
            kept.push(entry);
            assert(kept@.drop_last() =~= kept_before);
        }
        assert(field_views(kept@) =~= field_views(taken).remove(key@));
    }
    assert(taken =~= fields@);
    kept
}

/// The entries with `value` under `key`.
pub fn with_field(fields: Vec<(String, Json)>, key: &str, value: Json) -> (r: Vec<(String, Json)>)
    ensures
        field_views(r@) == field_views(fields@).insert(key@, value@),
{
    let mut out = without_field(fields, key);
    let ghost before = out@;
    out.push((key.to_owned(), value));
    assert(out@.drop_last() =~= before);
    assert(field_views(out@) =~= field_views(fields@).insert(key@, value@));
    out
}

// ---------------------------------------------------------------------------
// Building
// ---------------------------------------------------------------------------

pub open spec fn integer_view(n: i64) -> JsonView {
    if n >= 0 {
        JsonView::Unsigned(n as u64)
    } else {
        JsonView::Negative(n)
    }
}

/// The value of an integer.
pub fn integer(n: i64) -> (r: Json)
    ensures
        r@ == integer_view(n),
{
    if n >= 0 {
        Json::Unsigned(n as u64)
    } else {
        Json::Negative(n)
    }
}

pub open spec fn opt_text_view(t: Option<Seq<char>>) -> JsonView {
    match t {
        Some(s) => JsonView::Text(s),
        None => JsonView::Null,
    }
}

/// The value of a text that may be missing.
pub fn optional_text(t: &Option<String>) -> (r: Json)
    ensures
        r@ == opt_text_view(text::opt_text(*t)),
{
    match t {
        Some(s) => Json::Text(s.clone()),
        None => Json::Null,
    }
}

/// The value of a text.
pub fn text_value(t: &str) -> (r: Json)
    ensures
        r@ == JsonView::Text(t@),
{
    Json::Text(t.to_owned())
}

/// An integer is shown as it is and read back as it is; one that 64 signed bits cannot hold is not
/// read, nor is anything else.
pub proof fn law_integers_read_back(n: i64, big: u64, t: Seq<char>)
    ensures
        integer_in(Some(integer_view(n))) == Some(n),
        big > i64::MAX ==> integer_in(Some(JsonView::Unsigned(big))) is None,
        integer_in(Some(JsonView::Text(t))) is None,
        integer_in(Some(JsonView::Float(t))) is None,
        integer_in(None) is None,
{
}

/// A text is read where the value is one, and an array where the value is one.
pub proof fn law_values_are_read_by_their_kind(value: JsonView, t: Seq<char>, items: Seq<JsonView>)
    ensures
        text_in(Some(JsonView::Text(t))) == Some(t),
        !(value is Text) ==> text_in(Some(value)) is None,
        text_in(None) is None,
        array_of(Some(JsonView::Array(items))) == Some(items),
        !(value is Array) ==> array_of(Some(value)) is None,
        array_of(None) is None,
        opt_text_view(Some(t)) == JsonView::Text(t),
        opt_text_view(None) == JsonView::Null,
{
}

/// A field is what the object holds under the key; what is no object has no fields.
pub proof fn law_field_is_what_the_object_holds(
    m: Map<Seq<char>, JsonView>,
    key: Seq<char>,
    value: JsonView,
)
    ensures
        field(JsonView::Object(m.insert(key, value)), key) == Some(value),
        !m.contains_key(key) ==> field(JsonView::Object(m), key) is None,
        !(value is Object) ==> field(value, key) is None,
{
}

/// Values are the same only where nothing in them differs: arrays item by item and of one length,
/// objects key by key and with the same keys, and anything else by itself.
pub proof fn law_same_values_differ_in_nothing(a: JsonView, b: JsonView, key: Seq<char>, i: int)
    requires
        same_json(a, b),
    ensures
        a is Null <==> b is Null,
        a matches JsonView::Bool(x) ==> b == JsonView::Bool(x),
        a matches JsonView::Unsigned(n) ==> b == JsonView::Unsigned(n),
        a matches JsonView::Negative(n) ==> b == JsonView::Negative(n),
        a matches JsonView::Float(t) ==> (b matches JsonView::Float(u) && (t == u || ((t == "0.0"@
            || t == "-0.0"@) && (u == "0.0"@ || u == "-0.0"@)))),
        a matches JsonView::Text(t) ==> b == JsonView::Text(t),
        a matches JsonView::Array(s) ==> (b matches JsonView::Array(t) && s.len() == t.len() && (0
            <= i < s.len() ==> same_json(s[i], t[i]))),
        a matches JsonView::Object(s) ==> (b matches JsonView::Object(t) && (s.contains_key(key)
            <==> t.contains_key(key)) && (s.contains_key(key) ==> same_json(s[key], t[key]))),
{
    match (a, b) {
        (JsonView::Object(s), JsonView::Object(t)) => {
            assert(s.dom().contains(key) == t.dom().contains(key));
        },
        _ => {},
    }
}

} // verus!
