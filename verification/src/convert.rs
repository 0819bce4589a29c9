//! Conversions into values, and the kinds that a value can be taken as.

use vstd::prelude::*;
use crate::model::{entries_insert, Entry, Json, Type};
use crate::number::{int_text, number_error, represents, Number, NumberError, NumberModel};
use crate::value::{array_model, lemma_array_model, Array, Object, Value};

verus! {

/// Something that stands for a JSON value.
pub trait ValueLike: Sized {
    /// The value that this stands for.
    spec fn json(self) -> Json;

    /// Turns this into the value it stands for.
    fn into_value(self) -> (r: Value)
        ensures
            r@ == self.json(),
    ;
}

impl ValueLike for Value {
    open spec fn json(self) -> Json {
        self@
    }

    fn into_value(self) -> (r: Value) {
        self
    }
}

impl ValueLike for () {
    open spec fn json(self) -> Json {
        Json::Null
    }

    fn into_value(self) -> (r: Value) {
        Value::Null
    }
}

impl ValueLike for bool {
    open spec fn json(self) -> Json {
        Json::Boolean(self)
    }

    fn into_value(self) -> (r: Value) {
        Value::Boolean(self)
    }
}

impl ValueLike for Number {
    open spec fn json(self) -> Json {
        Json::Number(self@)
    }

    fn into_value(self) -> (r: Value) {
        Value::Number(self)
    }
}

/// The number that stands for an integer.
pub open spec fn int_number(n: int) -> NumberModel {
    NumberModel { bits: choose|bits: u64| represents(bits, n), text: int_text(n) }
}

impl ValueLike for i32 {
    open spec fn json(self) -> Json {
        Json::Number(int_number(self as int))
    }

    fn into_value(self) -> (r: Value) {
        let n = Number::from_i32(self);
        proof {
            crate::number::lemma_represents_one(n@.bits, int_number(self as int).bits, self as int);
        }
        Value::Number(n)
    }
}

impl ValueLike for String {
    open spec fn json(self) -> Json {
        Json::String(self@)
    }

    fn into_value(self) -> (r: Value) {
        Value::String(self)
    }
}

impl<'a> ValueLike for &'a str {
    open spec fn json(self) -> Json {
        Json::String(self@)
    }

    fn into_value(self) -> (r: Value) {
        Value::String(self.to_owned())
    }
}

/// Something that a list of makes a value: values make an array, pairs of
/// a key and a value make an object.
pub trait ValueCollectionItem: Sized {
    /// The value that a list of these makes.
    spec fn collected(items: Seq<Self>) -> Json;

    /// Makes a value of a list of these.
    fn collect(items: Vec<Self>) -> (r: Value)
        ensures
            r@ == Self::collected(items@),
    ;
}

/// The values that the first `upto` of `items` stand for.
pub open spec fn values_of<V: ValueLike>(items: Seq<V>, upto: int) -> Seq<Json>
    decreases upto,
{
    if upto <= 0 || upto > items.len() {
        Seq::empty()
    } else {
        values_of(items, upto - 1).push(items[upto - 1].json())
    }
}

/// The entries that the first `upto` pairs make, each put under its key
/// in turn: a later pair replaces an earlier one with the same key.
pub open spec fn entries_of<V: ValueLike>(items: Seq<(Seq<char>, V)>, upto: int) -> Seq<Entry>
    decreases upto,
{
    if upto <= 0 || upto > items.len() {
        Seq::empty()
    } else {
        entries_insert(entries_of(items, upto - 1), items[upto - 1].0, items[upto - 1].1.json())
    }
}

impl<V: ValueLike> ValueCollectionItem for V {
    open spec fn collected(items: Seq<V>) -> Json {
        Json::Array(values_of(items, items.len() as int))
    }

    fn collect(items: Vec<V>) -> (r: Value) {
        let mut out: Vec<Value> = Vec::new();
        proof {
            lemma_array_model(out@);
            assert(array_model(out@) =~= values_of(items@, 0));
        }
        for item in it: items
            invariant
                it.seq() == items@,
                array_model(out@) == values_of(items@, it.index() as int),
        {
            let ghost before = out@;
            out.push(item.into_value());
            proof {
                lemma_array_model(before);
                lemma_array_model(out@);
                assert(array_model(out@) =~= values_of(items@, it.index() + 1));
            }
        }
        Value::Array(out)
    }
}

/// The pairs with each key as its characters.
pub open spec fn keyed<V>(items: Seq<(String, V)>) -> Seq<(Seq<char>, V)> {
    Seq::new(items.len(), |i: int| (items[i].0@, items[i].1))
}

/// The pairs with each key as its characters.
pub open spec fn keyed_str<V>(items: Seq<(&str, V)>) -> Seq<(Seq<char>, V)> {
    Seq::new(items.len(), |i: int| (items[i].0@, items[i].1))
}

impl<V: ValueLike> ValueCollectionItem for (String, V) {
    open spec fn collected(items: Seq<(String, V)>) -> Json {
        Json::Object(entries_of(keyed(items), items.len() as int))
    }

    fn collect(items: Vec<(String, V)>) -> (r: Value) {
        let mut out = Object::new();
        for item in it: items
            invariant
                it.seq() == items@,
                out@ == entries_of(keyed(items@), it.index() as int),
        {
            let (key, value) = item;
            out.insert(key.as_str(), value.into_value());
        }
        Value::Object(out)
    }
}

impl<'a, V: ValueLike> ValueCollectionItem for (&'a str, V) {
    open spec fn collected(items: Seq<(&'a str, V)>) -> Json {
        Json::Object(entries_of(keyed_str(items), items.len() as int))
    }

    fn collect(items: Vec<(&'a str, V)>) -> (r: Value) {
        let mut out = Object::new();
        for item in it: items
            invariant
                it.seq() == items@,
                out@ == entries_of(keyed_str(items@), it.index() as int),
        {
            let (key, value) = item;
            out.insert(key, value.into_value());
        }
        Value::Object(out)
    }
}

impl<T: ValueCollectionItem> ValueLike for Vec<T> {
    open spec fn json(self) -> Json {
        T::collected(self@)
    }

    fn into_value(self) -> (r: Value) {
        T::collect(self)
    }
}

impl ValueLike for Object {
    open spec fn json(self) -> Json {
        Json::Object(self@)
    }

    fn into_value(self) -> (r: Value) {
        Value::Object(self)
    }
}

/// The values that a list of values stands for are their models.
pub proof fn lemma_values_of_values(items: Seq<Value>, upto: int)
    requires
        0 <= upto <= items.len(),
    ensures
        values_of(items, upto) == array_model(items).take(upto),
    decreases upto,
{
    lemma_array_model(items);
    if upto > 0 {
        lemma_values_of_values(items, upto - 1);
        assert(array_model(items).take(upto) =~= array_model(items).take(upto - 1).push(
            items[upto - 1]@,
        ));
    } else {
        assert(array_model(items).take(upto) =~= Seq::<Json>::empty());
    }
}

/// A kind that a value can be taken as: nothing for `null`, a boolean, a
/// number, a text, the items of an array, an object.
pub trait ValueKind: ValueLike {
    /// Which values are of this kind.
    spec fn kind() -> Type;

    /// The content of `value`, if it is of this kind.
    fn try_borrow(value: &Value) -> (r: Option<&Self>)
        ensures
            r is Some <==> value@.kind() == Self::kind(),
            r is Some ==> (*r.unwrap()).json() == value@,
    ;

    /// The content of `value`, to be changed in place, if it is of this
    /// kind. A `null` has no content to change.
    fn try_borrow_mut(value: &mut Value) -> (r: Option<&mut Self>)
        ensures
            r is Some <==> old(value)@.kind() == Self::kind() && Self::kind() != Type::Null,
            r is Some ==> (*r.unwrap()).json() == old(value)@,
            r is Some ==> final(value)@ == (*final(r.unwrap())).json(),
            r is None ==> final(value)@ == old(value)@,
    ;
}

impl ValueKind for () {
    open spec fn kind() -> Type {
        Type::Null
    }

    fn try_borrow(value: &Value) -> (r: Option<&Self>) {
        match value {
            Value::Null => Some(&()),
            _ => None,
        }
    }

    fn try_borrow_mut(value: &mut Value) -> (r: Option<&mut Self>) {
        None
    }
}

impl ValueKind for bool {
    open spec fn kind() -> Type {
        Type::Boolean
    }

    fn try_borrow(value: &Value) -> (r: Option<&Self>) {
        value.as_bool()
    }

    fn try_borrow_mut(value: &mut Value) -> (r: Option<&mut Self>) {
        value.as_bool_mut()
    }
}

impl ValueKind for Number {
    open spec fn kind() -> Type {
        Type::Number
    }

    fn try_borrow(value: &Value) -> (r: Option<&Self>) {
        value.as_number()
    }

    fn try_borrow_mut(value: &mut Value) -> (r: Option<&mut Self>) {
        value.as_number_mut()
    }
}

impl ValueKind for String {
    open spec fn kind() -> Type {
        Type::String
    }

    fn try_borrow(value: &Value) -> (r: Option<&Self>) {
        value.as_string()
    }

    fn try_borrow_mut(value: &mut Value) -> (r: Option<&mut Self>) {
        value.as_string_mut()
    }
}

impl ValueKind for Array {
    open spec fn kind() -> Type {
        Type::Array
    }

    fn try_borrow(value: &Value) -> (r: Option<&Self>) {
        let r = value.as_array();
        proof {
            if r is Some {
                lemma_values_of_values(r.unwrap()@, r.unwrap()@.len() as int);
                assert(array_model(r.unwrap()@).take(r.unwrap()@.len() as int) =~= array_model(
                    r.unwrap()@,
                )) by {
                    lemma_array_model(r.unwrap()@);
                }
            }
        }
        r
    }

    fn try_borrow_mut(value: &mut Value) -> (r: Option<&mut Self>) {
        let r = value.as_array_mut();
        proof {
            if r is Some {
                let now = (*r.unwrap())@;
                let then = (*final(r.unwrap()))@;
                lemma_values_of_values(now, now.len() as int);
                lemma_values_of_values(then, then.len() as int);
                lemma_array_model(now);
                lemma_array_model(then);
                assert(array_model(now).take(now.len() as int) =~= array_model(now));
                assert(array_model(then).take(then.len() as int) =~= array_model(then));
            }
        }
        r
    }
}

impl ValueKind for Object {
    open spec fn kind() -> Type {
        Type::Object
    }

    fn try_borrow(value: &Value) -> (r: Option<&Self>) {
        value.as_object()
    }

    fn try_borrow_mut(value: &mut Value) -> (r: Option<&mut Self>) {
        value.as_object_mut()
    }
}

impl Value {
    /// The content of this value as a `T`, if the value is of that kind.
    pub fn try_as<T: ValueKind>(&self) -> (r: Option<&T>)
        ensures
            r is Some <==> self@.kind() == T::kind(),
            r is Some ==> (*r.unwrap()).json() == self@,
    {
        T::try_borrow(self)
    }

    /// The content of this value as a `T`, to be changed in place, if the
    /// value is of that kind and has a content.
    pub fn try_as_mut<T: ValueKind>(&mut self) -> (r: Option<&mut T>)
        ensures
            r is Some <==> old(self)@.kind() == T::kind() && T::kind() != Type::Null,
            r is Some ==> (*r.unwrap()).json() == old(self)@,
            r is Some ==> final(self)@ == (*final(r.unwrap())).json(),
            r is None ==> final(self)@ == old(self)@,
    {
        T::try_borrow_mut(self)
    }

    /// Whether this value is of the kind `T`.
    pub fn is_of<T: ValueKind>(&self) -> (r: bool)
        ensures
            r == (self@.kind() == T::kind()),
    {
        self.try_as::<T>().is_some()
    }
}

/// The message for an error of `Number::new`.
pub open spec fn number_error_text(e: NumberError) -> Seq<char> {
    match e {
        NumberError::NotANumber => "NaN can't be a json value."@,
        NumberError::Infinite => "Infinite value can't be a json value."@,
        NumberError::MalformedText => "The text is no number token."@,
    }
}

impl NumberError {
    /// The message for this error.
    pub fn message(&self) -> (r: &'static str)
        ensures
            r@ == number_error_text(*self),
    {
        match self {
            NumberError::NotANumber => "NaN can't be a json value.",
            NumberError::Infinite => "Infinite value can't be a json value.",
            NumberError::MalformedText => "The text is no number token.",
        }
    }
}

impl Value {
    /// The value that `value` stands for.
    pub fn from<T: ValueLike>(value: T) -> (r: Value)
        ensures
            r@ == value.json(),
    {
        value.into_value()
    }

    /// The number with the bit pattern `bits`, written as `text`; or the
    /// message that says why there is no such number.
    pub fn try_from_number(bits: u64, text: &str) -> (r: Result<Value, &'static str>)
        ensures
            match number_error(bits, text@) {
                Some(e) => r is Err && r->Err_0@ == number_error_text(e),
                None => r is Ok && r->Ok_0@ == Json::Number(NumberModel { bits, text: text@ })
                    && r->Ok_0@.wf(),
            },
    {
        match Number::new(bits, text) {
            Ok(n) => Ok(Value::Number(n)),
            Err(e) => Err(e.message()),
        }
    }

    /// The number with the bit pattern `bits`, written as `text`.
    pub fn from_number(bits: u64, text: &str) -> (r: Value)
        requires
            number_error(bits, text@) is None,
        ensures
            r@ == Json::Number(NumberModel { bits, text: text@ }),
            r@.wf(),
    {
        let made = Number::new(bits, text);
        Value::Number(made.unwrap())
    }
}

} // verus!
