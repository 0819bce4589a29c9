//! The value tree: `Value`, the sorted `Object` it holds, and the key type
//! that addresses an item of an array or of an object.

use vstd::prelude::*;
use vstd::std_specs::convert::IntoSpec;
use crate::model::{
    entries_find, entries_get, entries_insert, entries_order, entries_position, entries_remove,
    entries_sorted, int_order, items_order, kind_rank, lemma_insert_sorted, lemma_position,
    lemma_remove_sorted, text_order, Entry, Json, Order, Type,
};
use crate::number::Number;
use crate::text::{chars_equal, chars_less, to_chars};

verus! {

/// The items of an array.
pub type Array = Vec<Value>;

/// A JSON value. An array or an object owns its children.
#[derive(Debug)]
pub enum Value {
    Null,
    Boolean(bool),
    Number(Number),
    String(String),
    Array(Array),
    Object(Object),
}

/// A JSON object: values under text keys, kept in the order of the keys.
#[derive(Debug)]
pub struct Object {
    entries: Vec<(String, Value)>,
}

/// The model of a value.
pub open spec fn value_model(v: Value) -> Json
    decreases v, 0nat,
{
    match v {
        Value::Null => Json::Null,
        Value::Boolean(b) => Json::Boolean(b),
        Value::Number(n) => Json::Number(n@),
        Value::String(s) => Json::String(s@),
        Value::Array(a) => Json::Array(array_model(a@)),
        Value::Object(o) => Json::Object(o.model()),
    }
}

/// The models of the items of an array, in order.
pub open spec fn array_model(items: Seq<Value>) -> Seq<Json>
    decreases items, 1nat,
{
    Seq::new(
        items.len(),
        |i: int|
            if 0 <= i < items.len() {
                value_model(items[i])
            } else {
                Json::Null
            },
    )
}

/// The models of the entries of an object, in order.
pub closed spec fn entries_model(entries: Seq<(String, Value)>) -> Seq<Entry>
    decreases entries, 1nat,
{
    Seq::new(
        entries.len(),
        |i: int|
            if 0 <= i < entries.len() {
                (entries[i].0@, value_model(entries[i].1))
            } else {
                (Seq::empty(), Json::Null)
            },
    )
}

impl Object {
    /// The entries as plain values, in key order.
    pub closed spec fn model(&self) -> Seq<Entry>
        decreases self, 2nat,
    {
        entries_model(self.entries@)
    }
}

impl View for Object {
    type V = Seq<Entry>;

    open spec fn view(&self) -> Seq<Entry> {
        self.model()
    }
}

impl View for Value {
    type V = Json;

    open spec fn view(&self) -> Json {
        value_model(*self)
    }
}

/// The model of an array has the model of each item at the item's place.
pub proof fn lemma_array_model(items: Seq<Value>)
    ensures
        array_model(items).len() == items.len(),
        forall|i: int| 0 <= i < items.len() ==> #[trigger] array_model(items)[i] == items[i]@,
{
}

proof fn lemma_entries_model(entries: Seq<(String, Value)>)
    ensures
        entries_model(entries).len() == entries.len(),
        forall|i: int|
            0 <= i < entries.len() ==> #[trigger] entries_model(entries)[i] == (
                entries[i].0@,
                entries[i].1@,
            ),
{
}

impl Object {
    /// An object without entries.
    pub fn new() -> (r: Object)
        ensures
            r@ == Seq::<Entry>::empty(),
    {
        let r = Object { entries: Vec::new() };
        assert(r@ =~= Seq::<Entry>::empty());
        r
    }

    /// The number of entries.
    pub fn len(&self) -> (r: usize)
        ensures
            r == self@.len(),
    {
        self.entries.len()
    }

    /// Whether the object has no entry.
    pub fn is_empty(&self) -> (r: bool)
        ensures
            r == (self@.len() == 0),
    {
        self.entries.len() == 0
    }

    /// The key of the entry at `index`.
    pub fn key_at(&self, index: usize) -> (r: &str)
        requires
            index < self@.len(),
        ensures
            r@ == self@[index as int].0,
    {
        proof {
            lemma_entries_model(self.entries@);
        }
        self.entries[index].0.as_str()
    }

    /// The value of the entry at `index`. It is a part of the object, so
    /// a recursion that goes from the object to it ends.
    pub fn value_at(&self, index: usize) -> (r: &Value)
        requires
            index < self@.len(),
        ensures
            r@ == self@[index as int].1,
            decreases_to!(self => r),
    {
        proof {
            lemma_entries_model(self.entries@);
            assert(decreases_to!(self.entries => self.entries[index as int]));
        }
        &self.entries[index].1
    }

    /// The place of `key` in the order of the keys.
    fn position(&self, key: &Vec<char>) -> (r: usize)
        ensures
            r == entries_position(self@, key@, 0),
            r <= self@.len(),
    {
        let mut i: usize = 0;
        while i < self.entries.len()
            invariant
                i <= self.entries.len(),
                entries_position(self@, key@, 0) == entries_position(self@, key@, i as int),
            decreases self.entries.len() - i,
        {
            let k = to_chars(self.entries[i].0.as_str());
            if !chars_less(&k, key) {
                return i;
            }
            i += 1;
        }
        i
    }

    /// The place of the entry for `key`, if there is one.
    fn find(&self, key: &Vec<char>) -> (r: Option<usize>)
        ensures
            r is Some <==> entries_find(self@, key@) is Some,
            r is Some ==> r->0 as int == entries_find(self@, key@)->0 && r->0 < self@.len(),
    {
        let p = self.position(key);
        if p < self.entries.len() {
            let k = to_chars(self.entries[p].0.as_str());
            if chars_equal(&k, key) {
                return Some(p);
            }
        }
        None
    }

    /// The value under `key`, if there is one.
    pub fn get(&self, key: &str) -> (r: Option<&Value>)
        ensures
            match entries_get(self@, key@) {
                Some(v) => r is Some && r->0@ == v,
                None => r is None,
            },
    {
        proof {
            lemma_entries_model(self.entries@);
        }
        let k = to_chars(key);
        match self.find(&k) {
            Some(p) => Some(&self.entries[p].1),
            None => None,
        }
    }

    /// Puts `value` under `key` and returns the value that was there.
    pub fn insert(&mut self, key: &str, value: Value) -> (r: Option<Value>)
        ensures
            final(self)@ == entries_insert(old(self)@, key@, value@),
            match entries_get(old(self)@, key@) {
                Some(v) => r is Some && r->0@ == v,
                None => r is None,
            },
            entries_sorted(old(self)@) ==> entries_sorted(final(self)@),
    {
        proof {
            if entries_sorted(self@) {
                lemma_insert_sorted(self@, key@, value@);
            }
            lemma_entries_model(self.entries@);
        }
        let k = to_chars(key);
        match self.find(&k) {
            Some(p) => {
                let previous = self.entries.remove(p);
                self.entries.insert(p, (key.to_owned(), value));
                proof {
                    lemma_entries_model(self.entries@);
                }
                assert(self@ =~= entries_insert(old(self)@, key@, value@));
                Some(previous.1)
            },
            None => {
                let p = self.position(&k);
                self.entries.insert(p, (key.to_owned(), value));
                proof {
                    lemma_entries_model(self.entries@);
                }
                assert(self@ =~= entries_insert(old(self)@, key@, value@));
                None
            },
        }
    }

    /// Takes the entry for `key` out and returns its value.
    pub fn remove(&mut self, key: &str) -> (r: Option<Value>)
        ensures
            final(self)@ == entries_remove(old(self)@, key@),
            match entries_get(old(self)@, key@) {
                Some(v) => r is Some && r->0@ == v,
                None => r is None,
            },
            entries_sorted(old(self)@) ==> entries_sorted(final(self)@),
    {
        proof {
            if entries_sorted(self@) {
                lemma_remove_sorted(self@, key@);
            }
            lemma_entries_model(self.entries@);
        }
        let k = to_chars(key);
        match self.find(&k) {
            Some(p) => {
                let previous = self.entries.remove(p);
                proof {
                    lemma_entries_model(self.entries@);
                }
                assert(self@ =~= entries_remove(old(self)@, key@));
                Some(previous.1)
            },
            None => None,
        }
    }
}

/// A key into a collection: a position in an array or a name in an
/// object.
#[derive(Debug, Clone, Copy, PartialEq, PartialOrd, Hash)]
pub enum ValueKey<'a> {
    Index(usize),
    Key(&'a str),
}

impl<'a> From<usize> for ValueKey<'a> {
    fn from(value: usize) -> (r: ValueKey<'a>) {
        ValueKey::Index(value)
    }
}

impl<'a> vstd::std_specs::convert::FromSpecImpl<usize> for ValueKey<'a> {
    open spec fn obeys_from_spec() -> bool {
        true
    }

    open spec fn from_spec(value: usize) -> ValueKey<'a> {
        ValueKey::Index(value)
    }
}

impl<'a> From<&'a str> for ValueKey<'a> {
    fn from(key: &'a str) -> (r: ValueKey<'a>) {
        ValueKey::Key(key)
    }
}

impl<'a> vstd::std_specs::convert::FromSpecImpl<&'a str> for ValueKey<'a> {
    open spec fn obeys_from_spec() -> bool {
        true
    }

    open spec fn from_spec(key: &'a str) -> ValueKey<'a> {
        ValueKey::Key(key)
    }
}

/// The item of `v` under `key`: of an array at a position in it, of an
/// object under a name it has.
pub open spec fn item_at(v: Json, key: ValueKey) -> Option<Json> {
    match (v, key) {
        (Json::Array(items), ValueKey::Index(index)) => if index < items.len() {
            Some(items[index as int])
        } else {
            None
        },
        (Json::Object(entries), ValueKey::Key(name)) => entries_get(entries, name@),
        _ => None,
    }
}

/// `v` with `item` in place of the item under `key`, where it has one.
pub open spec fn with_item(v: Json, key: ValueKey, item: Json) -> Json {
    match (v, key) {
        (Json::Array(items), ValueKey::Index(index)) => if index < items.len() {
            Json::Array(items.update(index as int, item))
        } else {
            v
        },
        (Json::Object(entries), ValueKey::Key(name)) => match entries_find(entries, name@) {
            Some(p) => Json::Object(entries.update(p, (name@, item))),
            None => v,
        },
        _ => v,
    }
}

/// Whether `Value::insert` can be asked for `key`: a position in an array
/// must lie in the array or at its end.
pub open spec fn can_insert(v: Json, key: ValueKey) -> bool {
    match (v, key) {
        (Json::Array(items), ValueKey::Index(index)) => index <= items.len(),
        _ => true,
    }
}

/// `v` after `item` was inserted under `key`: into an array at a
/// position, the later items moving up; into an object under a name.
/// Anything else stays as it is.
pub open spec fn inserted(v: Json, key: ValueKey, item: Json) -> Json {
    match (v, key) {
        (Json::Array(items), ValueKey::Index(index)) => Json::Array(
            items.insert(index as int, item),
        ),
        (Json::Object(entries), ValueKey::Key(name)) => Json::Object(
            entries_insert(entries, name@, item),
        ),
        _ => v,
    }
}

/// Whether `Value::remove` can be asked for `key`: a position in an array
/// must lie in the array.
pub open spec fn can_remove(v: Json, key: ValueKey) -> bool {
    match (v, key) {
        (Json::Array(items), ValueKey::Index(index)) => index < items.len(),
        _ => true,
    }
}

/// `v` after the item under `key` was removed: from an array at a
/// position, the later items moving down; from an object under a name.
pub open spec fn removed(v: Json, key: ValueKey) -> Json {
    match (v, key) {
        (Json::Array(items), ValueKey::Index(index)) => Json::Array(items.remove(index as int)),
        (Json::Object(entries), ValueKey::Key(name)) => Json::Object(
            entries_remove(entries, name@),
        ),
        _ => v,
    }
}

impl Value {
    /// An empty array.
    pub fn array() -> (r: Value)
        ensures
            r@ == Json::Array(Seq::empty()),
    {
        let r = Value::Array(Vec::new());
        proof {
            lemma_array_model(Seq::<Value>::empty());
            assert(r@->Array_0 =~= Seq::<Json>::empty());
        }
        r
    }

    /// An empty object.
    pub fn object() -> (r: Value)
        ensures
            r@ == Json::Object(Seq::empty()),
    {
        Value::Object(Object::new())
    }

    /// Whether the value is `null`.
    pub fn is_null(&self) -> (r: bool)
        ensures
            r == (self@ is Null),
    {
        match self {
            Value::Null => true,
            _ => false,
        }
    }

    /// Whether the value is an array or an object without items.
    pub fn is_empty(&self) -> (r: bool)
        ensures
            r == match self@ {
                Json::Array(items) => items.len() == 0,
                Json::Object(entries) => entries.len() == 0,
                _ => false,
            },
    {
        match self {
            Value::Null | Value::Boolean(_) | Value::Number(_) | Value::String(_) => false,
            Value::Array(array) => {
                proof {
                    lemma_array_model(array@);
                }
                array.len() == 0
            },
            Value::Object(object) => object.is_empty(),
        }
    }

    /// Whether the value is a collection with an item under what `key`
    /// is turned into.
    pub fn has<'a, K: Into<ValueKey<'a>>>(&self, key: K) -> (r: bool)
        ensures
            K::obeys_into_spec() ==> r == (item_at(self@, key.into_spec()) is Some),
    {
        self.has_at(key.into())
    }

    /// Gets the item under what `key` is turned into, if the value is a
    /// collection that has one.
    pub fn get<'a, K: Into<ValueKey<'a>>>(&self, key: K) -> (r: Option<&Value>)
        ensures
            K::obeys_into_spec() ==> match item_at(self@, key.into_spec()) {
                Some(item) => r is Some && r->0@ == item,
                None => r is None,
            },
    {
        self.get_at(key.into())
    }

    /// Whether the value is a collection with an item under `key`.
    pub fn has_at(&self, key: ValueKey) -> (r: bool)
        ensures
            r == (item_at(self@, key) is Some),
    {
        self.get_at(key).is_some()
    }

    /// Gets the item under `key` if the value is a collection that has
    /// one.
    pub fn get_at(&self, key: ValueKey) -> (r: Option<&Value>)
        ensures
            match item_at(self@, key) {
                Some(item) => r is Some && r->0@ == item,
                None => r is None,
            },
    {
        match (self, key) {
            (Value::Array(array), ValueKey::Index(index)) => {
                proof {
                    lemma_array_model(array@);
                }
                if index < array.len() {
                    Some(&array[index])
                } else {
                    None
                }
            },
            (Value::Object(object), ValueKey::Key(name)) => object.get(name),
            _ => None,
        }
    }

    /// Appends `value` if this is an array, and does nothing if not.
    pub fn push(&mut self, value: Value)
        ensures
            final(self)@ == match old(self)@ {
                Json::Array(items) => Json::Array(items.push(value@)),
                other => other,
            },
    {
        match self {
            Value::Array(array) => {
                let ghost before = array@;
                array.push(value);
                proof {
                    lemma_array_model(before);
                    lemma_array_model(array@);
                    assert(array_model(array@) =~= array_model(before).push(value@));
                }
            },
            _ => {},
        }
    }

    /// Inserts `value` under what `key` is turned into, as `insert_at`
    /// does.
    pub fn insert<'a, K: Into<ValueKey<'a>>>(&mut self, key: K, value: Value) -> (r: Option<Value>)
        requires
            K::obeys_into_spec(),
            can_insert(old(self)@, key.into_spec()),
        ensures
            final(self)@ == inserted(old(self)@, key.into_spec(), value@),
            match (old(self)@, key.into_spec()) {
                (Json::Object(_), ValueKey::Key(_)) => match item_at(old(self)@, key.into_spec()) {
                    Some(item) => r is Some && r->0@ == item,
                    None => r is None,
                },
                _ => r is None,
            },
            old(self)@.wf() && value@.wf() ==> final(self)@.wf(),
    {
        self.insert_at(key.into(), value)
    }

    /// Inserts `value` into an array at a position or into an object under
    /// a name. Returns the value that the object had under the name.
    pub fn insert_at(&mut self, key: ValueKey, value: Value) -> (r: Option<Value>)
        requires
            can_insert(old(self)@, key),
        ensures
            final(self)@ == inserted(old(self)@, key, value@),
            match (old(self)@, key) {
                (Json::Object(_), ValueKey::Key(_)) => match item_at(old(self)@, key) {
                    Some(item) => r is Some && r->0@ == item,
                    None => r is None,
                },
                _ => r is None,
            },
            old(self)@.wf() && value@.wf() ==> final(self)@.wf(),
    {
        match (self, key) {
            (Value::Array(array), ValueKey::Index(index)) => {
                let ghost before = array@;
                proof {
                    lemma_array_model(before);
                }
                array.insert(index, value);
                proof {
                    lemma_array_model(array@);
                    assert(array_model(array@) =~= array_model(before).insert(
                        index as int,
                        value@,
                    ));
                }
                None
            },
            (Value::Object(object), ValueKey::Key(name)) => {
                proof {
                    if Json::Object(object@).wf() && value@.wf() {
                        lemma_insert_wf(object@, name@, value@);
                    }
                }
                object.insert(name, value)
            },
            _ => None,
        }
    }

    /// Removes the item under what `key` is turned into, as `remove_at`
    /// does.
    pub fn remove<'a, K: Into<ValueKey<'a>>>(&mut self, key: K) -> (r: Option<Value>)
        requires
            K::obeys_into_spec(),
            can_remove(old(self)@, key.into_spec()),
        ensures
            final(self)@ == removed(old(self)@, key.into_spec()),
            match item_at(old(self)@, key.into_spec()) {
                Some(item) => r is Some && r->0@ == item,
                None => r is None,
            },
            old(self)@.wf() ==> final(self)@.wf(),
    {
        self.remove_at(key.into())
    }

    /// Removes the item at a position of an array or under a name of an
    /// object, and returns it.
    pub fn remove_at(&mut self, key: ValueKey) -> (r: Option<Value>)
        requires
            can_remove(old(self)@, key),
        ensures
            final(self)@ == removed(old(self)@, key),
            match item_at(old(self)@, key) {
                Some(item) => r is Some && r->0@ == item,
                None => r is None,
            },
            old(self)@.wf() ==> final(self)@.wf(),
    {
        match (self, key) {
            (Value::Array(array), ValueKey::Index(index)) => {
                let ghost before = array@;
                proof {
                    lemma_array_model(before);
                }
                let item = array.remove(index);
                proof {
                    lemma_array_model(array@);
                    assert(array_model(array@) =~= array_model(before).remove(index as int));
                }
                Some(item)
            },
            (Value::Object(object), ValueKey::Key(name)) => {
                proof {
                    if Json::Object(object@).wf() {
                        lemma_remove_wf(object@, name@);
                    }
                }
                object.remove(name)
            },
            _ => None,
        }
    }
}

impl Object {
    /// The value under `key`, to be changed in place, if there is one.
    pub fn get_mut(&mut self, key: &str) -> (r: Option<&mut Value>)
        ensures
            match entries_find(old(self)@, key@) {
                Some(p) => {
                    &&& r is Some
                    &&& (*r.unwrap())@ == old(self)@[p].1
                    &&& final(self)@ == old(self)@.update(p, (key@, (*final(r.unwrap()))@))
                },
                None => r is None && final(self)@ == old(self)@,
            },
    {
        proof {
            lemma_entries_model(self.entries@);
        }
        let k = to_chars(key);
        match self.find(&k) {
            Some(p) => {
                let ghost before = self.entries@;
                let slot = &mut self.entries[p].1;
                proof {
                    let after = before.update(p as int, (before[p as int].0, *final(slot)));
                    lemma_entries_model(before);
                    lemma_entries_model(after);
                    assert(entries_model(after) =~= entries_model(before).update(
                        p as int,
                        (key@, (*final(slot))@),
                    ));
                }
                Some(slot)
            },
            None => None,
        }
    }
}

impl Value {
    /// The boolean, if the value is one.
    pub fn as_bool(&self) -> (r: Option<&bool>)
        ensures
            match self@ {
                Json::Boolean(b) => r is Some && *r.unwrap() == b,
                _ => r is None,
            },
    {
        match self {
            Value::Boolean(it) => Some(it),
            _ => None,
        }
    }

    /// The boolean, to be changed in place, if the value is one.
    pub fn as_bool_mut(&mut self) -> (r: Option<&mut bool>)
        ensures
            match old(self)@ {
                Json::Boolean(b) => r is Some && *r.unwrap() == b && final(self)@ == Json::Boolean(
                    *final(r.unwrap()),
                ),
                _ => r is None && final(self)@ == old(self)@,
            },
    {
        match self {
            Value::Boolean(it) => Some(it),
            _ => None,
        }
    }

    /// The number, if the value is one.
    pub fn as_number(&self) -> (r: Option<&Number>)
        ensures
            match self@ {
                Json::Number(n) => r is Some && r.unwrap()@ == n,
                _ => r is None,
            },
    {
        match self {
            Value::Number(it) => Some(it),
            _ => None,
        }
    }

    /// The number, to be changed in place, if the value is one.
    pub fn as_number_mut(&mut self) -> (r: Option<&mut Number>)
        ensures
            match old(self)@ {
                Json::Number(n) => r is Some && (*r.unwrap())@ == n && final(self)@ == Json::Number(
                    (*final(r.unwrap()))@,
                ),
                _ => r is None && final(self)@ == old(self)@,
            },
    {
        match self {
            Value::Number(it) => Some(it),
            _ => None,
        }
    }

    /// The text, if the value is a string.
    pub fn as_string(&self) -> (r: Option<&String>)
        ensures
            match self@ {
                Json::String(s) => r is Some && r.unwrap()@ == s,
                _ => r is None,
            },
    {
        match self {
            Value::String(it) => Some(it),
            _ => None,
        }
    }

    /// The text, to be changed in place, if the value is a string.
    pub fn as_string_mut(&mut self) -> (r: Option<&mut String>)
        ensures
            match old(self)@ {
                Json::String(s) => r is Some && (*r.unwrap())@ == s && final(self)@ == Json::String(
                    (*final(r.unwrap()))@,
                ),
                _ => r is None && final(self)@ == old(self)@,
            },
    {
        match self {
            Value::String(it) => Some(it),
            _ => None,
        }
    }

    /// The items, if the value is an array.
    pub fn as_array(&self) -> (r: Option<&Array>)
        ensures
            match self@ {
                Json::Array(items) => r is Some && array_model(r.unwrap()@) == items,
                _ => r is None,
            },
    {
        match self {
            Value::Array(it) => Some(it),
            _ => None,
        }
    }

    /// The items, to be changed in place, if the value is an array.
    pub fn as_array_mut(&mut self) -> (r: Option<&mut Array>)
        ensures
            match old(self)@ {
                Json::Array(items) => {
                    &&& r is Some
                    &&& array_model((*r.unwrap())@) == items
                    &&& final(self)@ == Json::Array(array_model((*final(r.unwrap()))@))
                },
                _ => r is None && final(self)@ == old(self)@,
            },
    {
        match self {
            Value::Array(it) => Some(it),
            _ => None,
        }
    }

    /// The object, if the value is one.
    pub fn as_object(&self) -> (r: Option<&Object>)
        ensures
            match self@ {
                Json::Object(entries) => r is Some && r.unwrap()@ == entries,
                _ => r is None,
            },
    {
        match self {
            Value::Object(it) => Some(it),
            _ => None,
        }
    }

    /// The object, to be changed in place, if the value is one.
    pub fn as_object_mut(&mut self) -> (r: Option<&mut Object>)
        ensures
            match old(self)@ {
                Json::Object(entries) => r is Some && (*r.unwrap())@ == entries && final(self)@
                    == Json::Object((*final(r.unwrap()))@),
                _ => r is None && final(self)@ == old(self)@,
            },
    {
        match self {
            Value::Object(it) => Some(it),
            _ => None,
        }
    }

    /// Gets the item under what `key` is turned into, to be changed in
    /// place, if the value is a collection that has one.
    pub fn get_mut<'a, K: Into<ValueKey<'a>>>(&mut self, key: K) -> (r: Option<&mut Value>)
        ensures
            K::obeys_into_spec() ==> match item_at(old(self)@, key.into_spec()) {
                Some(item) => r is Some && (*r.unwrap())@ == item && final(self)@ == with_item(
                    old(self)@,
                    key.into_spec(),
                    (*final(r.unwrap()))@,
                ),
                None => r is None && final(self)@ == old(self)@,
            },
    {
        self.get_mut_at(key.into())
    }

    /// Gets the item under `key`, to be changed in place, if the value is
    /// a collection that has one.
    pub fn get_mut_at(&mut self, key: ValueKey) -> (r: Option<&mut Value>)
        ensures
            match item_at(old(self)@, key) {
                Some(item) => r is Some && (*r.unwrap())@ == item && final(self)@ == with_item(
                    old(self)@,
                    key,
                    (*final(r.unwrap()))@,
                ),
                None => r is None && final(self)@ == old(self)@,
            },
    {
        match (self, key) {
            (Value::Array(array), ValueKey::Index(index)) => {
                proof {
                    lemma_array_model(array@);
                }
                if index < array.len() {
                    let ghost before = array@;
                    let item = &mut array[index];
                    proof {
                        lemma_array_model(before.update(index as int, *final(item)));
                        assert(array_model(before.update(index as int, *final(item)))
                            =~= array_model(before).update(index as int, (*final(item))@));
                    }
                    Some(item)
                } else {
                    None
                }
            },
            (Value::Object(object), ValueKey::Key(name)) => object.get_mut(name),
            _ => None,
        }
    }
}

impl Object {
    /// A copy of this object.
    pub fn duplicate(&self) -> (r: Object)
        ensures
            r@ == self@,
        decreases self, 0nat,
    {
        let mut entries: Vec<(String, Value)> = Vec::new();
        let mut i: usize = 0;
        while i < self.entries.len()
            invariant
                i <= self.entries.len(),
                entries@.len() == i,
                forall|j: int|
                    0 <= j < i ==> (#[trigger] entries@[j]).0@ == self.entries@[j].0@
                        && entries@[j].1@ == self.entries@[j].1@,
            decreases self.entries.len() - i,
        {
            proof {
                assert(decreases_to!(self.entries => self.entries[i as int]));
            }
            let key = self.entries[i].0.clone();
            let value = self.entries[i].1.duplicate();
            entries.push((key, value));
            i += 1;
        }
        let r = Object { entries };
        proof {
            lemma_entries_model(self.entries@);
            lemma_entries_model(r.entries@);
            assert(r@ =~= self@);
        }
        r
    }
}

impl Clone for Object {
    fn clone(&self) -> (r: Object)
        ensures
            r@ == self@,
    {
        self.duplicate()
    }
}

impl Value {
    /// A copy of this value.
    pub fn duplicate(&self) -> (r: Value)
        ensures
            r@ == self@,
        decreases self, 1nat,
    {
        match self {
            Value::Null => Value::Null,
            Value::Boolean(b) => Value::Boolean(*b),
            Value::Number(n) => Value::Number(n.clone()),
            Value::String(s) => Value::String(s.clone()),
            Value::Array(a) => {
                let mut items: Vec<Value> = Vec::new();
                let mut i: usize = 0;
                while i < a.len()
                    invariant
                        i <= a.len(),
                        items@.len() == i,
                        decreases_to!(self => a),
                        forall|j: int| 0 <= j < i ==> (#[trigger] items@[j])@ == a@[j]@,
                    decreases a.len() - i,
                {
                    proof {
                        assert(decreases_to!(a => a[i as int]));
                    }
                    items.push(a[i].duplicate());
                    i += 1;
                }
                proof {
                    lemma_array_model(a@);
                    lemma_array_model(items@);
                    assert(array_model(items@) =~= array_model(a@));
                }
                Value::Array(items)
            },
            Value::Object(o) => Value::Object(o.duplicate()),
        }
    }
}

impl Clone for Value {
    fn clone(&self) -> (r: Value)
        ensures
            r@ == self@,
    {
        self.duplicate()
    }
}

impl Object {
    /// Whether two objects have the same keys with equal values.
    pub fn same(&self, other: &Object) -> (r: bool)
        ensures
            r == Json::Object(self@).same(Json::Object(other@)),
        decreases self, 0nat,
    {
        proof {
            lemma_entries_model(self.entries@);
            lemma_entries_model(other.entries@);
            assert(Json::Object(self@)->Object_0 == self@);
            assert(Json::Object(other@)->Object_0 == other@);
        }
        if self.entries.len() != other.entries.len() {
            return false;
        }
        let mut i: usize = 0;
        while i < self.entries.len()
            invariant
                i <= self.entries.len(),
                self.entries.len() == other.entries.len(),
                self@.len() == self.entries.len(),
                other@.len() == self.entries.len(),
                forall|j: int|
                    0 <= j < i ==> (#[trigger] self@[j]).0 == other@[j].0 && self@[j].1.same(
                        other@[j].1,
                    ),
            decreases self.entries.len() - i,
        {
            proof {
                lemma_entries_model(self.entries@);
                lemma_entries_model(other.entries@);
                assert(decreases_to!(self.entries => self.entries[i as int]));
            }
            if !(self.entries[i].0 == other.entries[i].0) {
                assert(self@[i as int].0 != other@[i as int].0);
                return false;
            }
            if !self.entries[i].1.same(&other.entries[i].1) {
                assert(!self@[i as int].1.same(other@[i as int].1));
                return false;
            }
            i += 1;
        }
        true
    }
}

impl Value {
    /// The kind of this value.
    pub fn kind(&self) -> (r: Type)
        ensures
            r == self@.kind(),
    {
        match self {
            Value::Null => Type::Null,
            Value::Boolean(_) => Type::Boolean,
            Value::Number(_) => Type::Number,
            Value::String(_) => Type::String,
            Value::Array(_) => Type::Array,
            Value::Object(_) => Type::Object,
        }
    }

    /// Whether two values are equal: of the same kind, with equal
    /// contents.
    pub fn same(&self, other: &Value) -> (r: bool)
        ensures
            r == self@.same(other@),
        decreases self, 1nat,
    {
        match (self, other) {
            (Value::Null, Value::Null) => true,
            (Value::Boolean(a), Value::Boolean(b)) => *a == *b,
            (Value::Number(a), Value::Number(b)) => a.same(b),
            (Value::String(a), Value::String(b)) => *a == *b,
            (Value::Array(a), Value::Array(b)) => {
                proof {
                    lemma_array_model(a@);
                    lemma_array_model(b@);
                    assert(self@->Array_0 == array_model(a@));
                    assert(other@->Array_0 == array_model(b@));
                }
                if a.len() != b.len() {
                    return false;
                }
                let mut i: usize = 0;
                while i < a.len()
                    invariant
                        i <= a.len(),
                        a.len() == b.len(),
                        decreases_to!(self => a),
                        self@ == Json::Array(array_model(a@)),
                        other@ == Json::Array(array_model(b@)),
                        forall|j: int| 0 <= j < i ==> (#[trigger] a@[j])@.same(b@[j]@),
                    decreases a.len() - i,
                {
                    proof {
                        assert(decreases_to!(a => a[i as int]));
                        lemma_array_model(a@);
                        lemma_array_model(b@);
                        assert(self@->Array_0 == array_model(a@));
                        assert(other@->Array_0 == array_model(b@));
                    }
                    if !a[i].same(&b[i]) {
                        assert(!array_model(a@)[i as int].same(array_model(b@)[i as int]));
                        return false;
                    }
                    i += 1;
                }
                assert forall|j: int| 0 <= j < a.len() implies (#[trigger] array_model(a@)[j]).same(
                    array_model(b@)[j],
                ) by {
                    assert(a@[j]@.same(b@[j]@));
                }
                true
            },
            (Value::Object(a), Value::Object(b)) => a.same(b),
            _ => false,
        }
    }
}

/// The order of two texts.
pub(crate) fn order_texts(a: &str, b: &str) -> (r: Order)
    ensures
        r == text_order(a@, b@),
{
    let x = to_chars(a);
    let y = to_chars(b);
    if chars_equal(&x, &y) {
        Order::Equal
    } else if chars_less(&x, &y) {
        Order::Less
    } else {
        Order::Greater
    }
}

fn order_sizes(a: usize, b: usize) -> (r: Order)
    ensures
        r == int_order(a as int, b as int),
{
    if a < b {
        Order::Less
    } else if a == b {
        Order::Equal
    } else {
        Order::Greater
    }
}

impl Type {
    /// The rank of this kind.
    pub fn rank(&self) -> (r: usize)
        ensures
            r == kind_rank(*self),
    {
        match self {
            Type::Null => 0,
            Type::Boolean => 1,
            Type::Number => 2,
            Type::String => 3,
            Type::Array => 4,
            Type::Object => 5,
        }
    }
}

impl Object {
    /// The order of two objects, where they can be compared.
    pub fn compare(&self, other: &Object) -> (r: Option<Order>)
        ensures
            r == Json::Object(self@).compare(Json::Object(other@)),
        decreases self, 0nat,
    {
        proof {
            lemma_entries_model(self.entries@);
            lemma_entries_model(other.entries@);
        }
        let mut i: usize = 0;
        loop
            invariant
                i <= self.entries.len(),
                i <= other.entries.len(),
                self@.len() == self.entries.len(),
                other@.len() == other.entries.len(),
                entries_order(self@, other@, 0) == entries_order(self@, other@, i as int),
            decreases self.entries.len() - i,
        {
            proof {
                lemma_entries_model(self.entries@);
                lemma_entries_model(other.entries@);
            }
            if i >= self.entries.len() && i >= other.entries.len() {
                return Some(Order::Equal);
            } else if i >= self.entries.len() {
                return Some(Order::Less);
            } else if i >= other.entries.len() {
                return Some(Order::Greater);
            }
            let keys = order_texts(self.entries[i].0.as_str(), other.entries[i].0.as_str());
            match keys {
                Order::Equal => {},
                _ => {
                    return Some(keys);
                },
            }
            proof {
                assert(decreases_to!(self.entries => self.entries[i as int]));
            }
            match self.entries[i].1.compare(&other.entries[i].1) {
                Some(Order::Equal) => {},
                other_result => {
                    return other_result;
                },
            }
            i += 1;
        }
    }
}

impl Value {
    /// The order of two values, where they can be compared.
    pub fn compare(&self, other: &Value) -> (r: Option<Order>)
        ensures
            r == self@.compare(other@),
        decreases self, 1nat,
    {
        match (self, other) {
            (Value::Null, Value::Null) => Some(Order::Equal),
            (Value::Boolean(a), Value::Boolean(b)) => Some(
                order_sizes(
                    if *a {
                        1
                    } else {
                        0
                    },
                    if *b {
                        1
                    } else {
                        0
                    },
                ),
            ),
            (Value::Number(a), Value::Number(b)) => Some(
                if a.less(b) {
                    Order::Less
                } else if b.less(a) {
                    Order::Greater
                } else {
                    Order::Equal
                },
            ),
            (Value::String(a), Value::String(b)) => Some(order_texts(a.as_str(), b.as_str())),
            (Value::Array(a), Value::Array(b)) => {
                proof {
                    lemma_array_model(a@);
                    lemma_array_model(b@);
                }
                if a.len() != b.len() {
                    return Some(order_sizes(a.len(), b.len()));
                }
                let mut i: usize = 0;
                while i < a.len()
                    invariant
                        i <= a.len(),
                        a.len() == b.len(),
                        decreases_to!(self => a),
                        self@.compare(other@) == items_order(
                            array_model(a@),
                            array_model(b@),
                            i as int,
                        ),
                    decreases a.len() - i,
                {
                    proof {
                        assert(decreases_to!(a => a[i as int]));
                        lemma_array_model(a@);
                        lemma_array_model(b@);
                    }
                    match a[i].compare(&b[i]) {
                        Some(o) => {
                            return Some(o);
                        },
                        None => {},
                    }
                    i += 1;
                }
                Some(Order::Equal)
            },
            (Value::Object(a), Value::Object(b)) => a.compare(b),
            _ => Some(order_sizes(self.kind().rank(), other.kind().rank())),
        }
    }
}

/// Putting a well-formed value under a key keeps the entries well formed.
pub proof fn lemma_insert_wf(e: Seq<Entry>, key: Seq<char>, value: Json)
    requires
        Json::Object(e).wf(),
        value.wf(),
    ensures
        Json::Object(entries_insert(e, key, value)).wf(),
{
    lemma_insert_sorted(e, key, value);
    lemma_position(e, key, 0);
    let r = entries_insert(e, key, value);
    let p = entries_position(e, key, 0);
    assert forall|i: int| 0 <= i < r.len() implies (#[trigger] r[i]).1.wf() by {
        match entries_find(e, key) {
            Some(q) => {
                if i != q {
                    assert(r[i] == e[i]);
                }
            },
            None => {
                if i < p {
                    assert(r[i] == e[i]);
                } else if i > p {
                    assert(r[i] == e[i - 1]);
                }
            },
        }
    }
}

/// Removing a key keeps the entries well formed.
pub proof fn lemma_remove_wf(e: Seq<Entry>, key: Seq<char>)
    requires
        Json::Object(e).wf(),
    ensures
        Json::Object(entries_remove(e, key)).wf(),
{
    lemma_remove_sorted(e, key);
    let r = entries_remove(e, key);
    assert forall|i: int| 0 <= i < r.len() implies (#[trigger] r[i]).1.wf() by {
        match entries_find(e, key) {
            Some(q) => {
                if i < q {
                    assert(r[i] == e[i]);
                } else {
                    assert(r[i] == e[i + 1]);
                }
            },
            None => {},
        }
    }
}

} // verus!
