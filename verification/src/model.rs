//! The mathematical model of a JSON value, and of the sorted entry list
//! that stands for an object.

use vstd::prelude::*;
use crate::number::NumberModel;

verus! {

/// A JSON value as plain data. An object is the list of its entries in the
/// order in which they are kept and written.
pub ghost enum Json {
    Null,
    Boolean(bool),
    Number(NumberModel),
    String(Seq<char>),
    Array(Seq<Json>),
    Object(Seq<(Seq<char>, Json)>),
}

/// One entry of an object: a key and the value under it.
pub type Entry = (Seq<char>, Json);

/// The order of object keys: lexicographic by code point, a proper prefix
/// before the longer text. `from` is the first position still to compare.
pub open spec fn key_less_from(a: Seq<char>, b: Seq<char>, from: int) -> bool
    decreases a.len() - from,
{
    if from < 0 || from >= b.len() {
        false
    } else if from >= a.len() {
        true
    } else if a[from] != b[from] {
        a[from] < b[from]
    } else {
        key_less_from(a, b, from + 1)
    }
}

/// `a` comes before `b` in the order of object keys.
pub open spec fn key_less(a: Seq<char>, b: Seq<char>) -> bool {
    key_less_from(a, b, 0)
}

/// The keys strictly increase along the list, so no key occurs twice.
pub open spec fn entries_sorted(e: Seq<Entry>) -> bool {
    forall|i: int, j: int| 0 <= i < j < e.len() ==> key_less(#[trigger] e[i].0, #[trigger] e[j].0)
}

/// The first position at or after `from` whose key is not less than
/// `key`; the length of the list if there is none.
pub open spec fn entries_position(e: Seq<Entry>, key: Seq<char>, from: int) -> int
    decreases e.len() - from,
{
    if from < 0 || from >= e.len() {
        e.len() as int
    } else if key_less(e[from].0, key) {
        entries_position(e, key, from + 1)
    } else {
        from
    }
}

/// Where `key` is found in the list, if it is.
pub open spec fn entries_find(e: Seq<Entry>, key: Seq<char>) -> Option<int> {
    let p = entries_position(e, key, 0);
    if 0 <= p < e.len() && e[p].0 == key {
        Some(p)
    } else {
        None
    }
}

/// The value under `key`, if the list has one.
pub open spec fn entries_get(e: Seq<Entry>, key: Seq<char>) -> Option<Json> {
    match entries_find(e, key) {
        Some(p) => Some(e[p].1),
        None => None,
    }
}

/// The list after `value` was put under `key`: in place of the value that
/// was there, or else at the key's place in the order.
pub open spec fn entries_insert(e: Seq<Entry>, key: Seq<char>, value: Json) -> Seq<Entry> {
    match entries_find(e, key) {
        Some(p) => e.update(p, (key, value)),
        None => e.insert(entries_position(e, key, 0), (key, value)),
    }
}

/// The list without the entry for `key`.
pub open spec fn entries_remove(e: Seq<Entry>, key: Seq<char>) -> Seq<Entry> {
    match entries_find(e, key) {
        Some(p) => e.remove(p),
        None => e,
    }
}

/// The kind of a value.
#[derive(Debug, Clone, Copy, PartialEq, Eq, PartialOrd, Structural)]
pub enum Type {
    Null,
    Boolean,
    Number,
    String,
    Array,
    Object,
}

/// How one value stands to another in an order.
#[derive(Debug, Clone, Copy, PartialEq, Eq, Structural)]
pub enum Order {
    Less,
    Equal,
    Greater,
}

/// The order of two integers.
pub open spec fn int_order(a: int, b: int) -> Order {
    if a < b {
        Order::Less
    } else if a == b {
        Order::Equal
    } else {
        Order::Greater
    }
}

/// The order of two texts: that of object keys.
pub open spec fn text_order(a: Seq<char>, b: Seq<char>) -> Order {
    if a == b {
        Order::Equal
    } else if key_less(a, b) {
        Order::Less
    } else {
        Order::Greater
    }
}

/// The rank of a kind: `null` first, then booleans, numbers, strings,
/// arrays, objects.
pub open spec fn kind_rank(kind: Type) -> int {
    match kind {
        Type::Null => 0,
        Type::Boolean => 1,
        Type::Number => 2,
        Type::String => 3,
        Type::Array => 4,
        Type::Object => 5,
    }
}

/// The order of two arrays of the same length, from item `from` on: that
/// of the first pair of items that can be compared, and equal if there is
/// none.
pub open spec fn items_order(a: Seq<Json>, b: Seq<Json>, from: int) -> Option<Order>
    decreases a, a.len() - from,
{
    if from < 0 || from >= a.len() || from >= b.len() {
        Some(Order::Equal)
    } else {
        match a[from].compare(b[from]) {
            Some(o) => Some(o),
            None => items_order(a, b, from + 1),
        }
    }
}

/// The order of two objects, from entry `from` on: entry by entry in key
/// order, a pair of entries by their keys and then by their values; the
/// first pair that is not equal decides, and an object that ends first
/// comes first.
pub open spec fn entries_order(a: Seq<Entry>, b: Seq<Entry>, from: int) -> Option<Order>
    decreases a, a.len() - from,
{
    if from < 0 || (from >= a.len() && from >= b.len()) {
        Some(Order::Equal)
    } else if from >= a.len() {
        Some(Order::Less)
    } else if from >= b.len() {
        Some(Order::Greater)
    } else if a[from].0 != b[from].0 {
        Some(text_order(a[from].0, b[from].0))
    } else {
        match a[from].1.compare(b[from].1) {
            Some(Order::Equal) => entries_order(a, b, from + 1),
            other => other,
        }
    }
}

impl Json {
    /// The order of two values, where they can be compared. Values of
    /// different kinds stand as their kinds do. Booleans, numbers and
    /// strings stand as their contents do. Arrays stand as their lengths
    /// do, and arrays of one length as `items_order` says. Objects stand
    /// as `entries_order` says.
    pub open spec fn compare(self, other: Json) -> Option<Order>
        decreases self, 0nat,
    {
        match (self, other) {
            (Json::Null, Json::Null) => Some(Order::Equal),
            (Json::Boolean(a), Json::Boolean(b)) => Some(
                int_order(
                    if a {
                        1
                    } else {
                        0
                    },
                    if b {
                        1
                    } else {
                        0
                    },
                ),
            ),
            (Json::Number(a), Json::Number(b)) => Some(
                int_order(crate::number::order_key(a.bits), crate::number::order_key(b.bits)),
            ),
            (Json::String(a), Json::String(b)) => Some(text_order(a, b)),
            (Json::Array(a), Json::Array(b)) => if a.len() != b.len() {
                Some(int_order(a.len() as int, b.len() as int))
            } else {
                items_order(a, b, 0)
            },
            (Json::Object(a), Json::Object(b)) => entries_order(a, b, 0),
            _ => Some(int_order(kind_rank(self.kind()), kind_rank(other.kind()))),
        }
    }

    /// The kind of this value.
    pub open spec fn kind(self) -> Type {
        match self {
            Json::Null => Type::Null,
            Json::Boolean(_) => Type::Boolean,
            Json::Number(_) => Type::Number,
            Json::String(_) => Type::String,
            Json::Array(_) => Type::Array,
            Json::Object(_) => Type::Object,
        }
    }

    /// Equality of values: the same kind and equal contents, numbers
    /// being equal as numbers are, whatever their texts.
    pub open spec fn same(self, other: Json) -> bool
        decreases self,
    {
        match (self, other) {
            (Json::Null, Json::Null) => true,
            (Json::Boolean(a), Json::Boolean(b)) => a == b,
            (Json::Number(a), Json::Number(b)) => a.same(b),
            (Json::String(a), Json::String(b)) => a == b,
            (Json::Array(a), Json::Array(b)) => {
                &&& a.len() == b.len()
                &&& forall|i: int| 0 <= i < a.len() ==> (#[trigger] a[i]).same(b[i])
            },
            (Json::Object(a), Json::Object(b)) => {
                &&& a.len() == b.len()
                &&& forall|i: int|
                    0 <= i < a.len() ==> (#[trigger] a[i]).0 == b[i].0 && a[i].1.same(b[i].1)
            },
            _ => false,
        }
    }

    /// Every number is finite with a proper text, and every object keeps
    /// its keys strictly increasing.
    pub open spec fn wf(self) -> bool
        decreases self,
    {
        match self {
            Json::Number(n) => n.wf(),
            Json::Array(items) => forall|i: int|
                0 <= i < items.len() ==> (#[trigger] items[i]).wf(),
            Json::Object(entries) => {
                &&& entries_sorted(entries)
                &&& forall|i: int| 0 <= i < entries.len() ==> (#[trigger] entries[i]).1.wf()
            },
            _ => true,
        }
    }
}

/// Two texts that agree before `from` and are ordered from there on are
/// ordered.
pub proof fn lemma_key_less_from(a: Seq<char>, b: Seq<char>, from: int)
    requires
        0 <= from <= a.len(),
        from <= b.len(),
        a.take(from) =~= b.take(from),
    ensures
        key_less_from(a, b, from) == key_less(a, b),
    decreases from,
{
    if from > 0 {
        assert(a.take(from)[from - 1] == b.take(from)[from - 1]);
        assert(a.take(from - 1) =~= a.take(from).take(from - 1));
        assert(b.take(from - 1) =~= b.take(from).take(from - 1));
        lemma_key_less_from(a, b, from - 1);
    }
}

/// No key comes before itself.
pub proof fn lemma_key_irreflexive(a: Seq<char>, from: int)
    requires
        0 <= from,
    ensures
        !key_less_from(a, a, from),
    decreases a.len() - from,
{
    if from < a.len() {
        lemma_key_irreflexive(a, from + 1);
    }
}

/// Of two different keys one comes before the other.
pub proof fn lemma_key_total(a: Seq<char>, b: Seq<char>, from: int)
    requires
        0 <= from <= a.len(),
        from <= b.len(),
        a.take(from) =~= b.take(from),
        a != b,
    ensures
        key_less_from(a, b, from) || key_less_from(b, a, from),
    decreases a.len() - from,
{
    if from >= a.len() || from >= b.len() {
        if from >= a.len() && from >= b.len() {
            assert(a.take(from) == a);
            assert(b.take(from) == b);
        }
    } else if a[from] == b[from] {
        assert(a.take(from + 1) =~= a.take(from).push(a[from]));
        assert(b.take(from + 1) =~= b.take(from).push(b[from]));
        lemma_key_total(a, b, from + 1);
    }
}

/// The order of keys is transitive.
pub proof fn lemma_key_transitive(a: Seq<char>, b: Seq<char>, c: Seq<char>, from: int)
    requires
        0 <= from,
        key_less_from(a, b, from),
        key_less_from(b, c, from),
    ensures
        key_less_from(a, c, from),
    decreases a.len() - from,
{
    if from < a.len() && from < b.len() && from < c.len() && a[from] == b[from] && b[from]
        == c[from] {
        lemma_key_transitive(a, b, c, from + 1);
    }
}

/// The position found for a key lies in the list or at its end, every
/// entry between `from` and it has a smaller key, and the entry at it has
/// none.
pub proof fn lemma_position(e: Seq<Entry>, key: Seq<char>, from: int)
    requires
        0 <= from <= e.len(),
    ensures
        from <= entries_position(e, key, from) <= e.len(),
        forall|i: int|
            from <= i < entries_position(e, key, from) ==> key_less(#[trigger] e[i].0, key),
        entries_position(e, key, from) < e.len() ==> !key_less(
            e[entries_position(e, key, from)].0,
            key,
        ),
    decreases e.len() - from,
{
    if from < e.len() && key_less(e[from].0, key) {
        lemma_position(e, key, from + 1);
    }
}

/// In a sorted list, `entries_get` finds the value of the entry that has
/// the key.
pub proof fn lemma_get_is_lookup(e: Seq<Entry>, key: Seq<char>, i: int)
    requires
        entries_sorted(e),
        0 <= i < e.len(),
        e[i].0 == key,
    ensures
        entries_find(e, key) == Some(i),
        entries_get(e, key) == Some(e[i].1),
{
    lemma_position(e, key, 0);
    let p = entries_position(e, key, 0);
    lemma_key_irreflexive(key, 0);
    if p > i {
        assert(key_less(e[i].0, key));
    }
    if p < i {
        assert(key_less(e[p].0, e[i].0));
    }
}

/// Putting a value under a key keeps a sorted list sorted.
pub proof fn lemma_insert_sorted(e: Seq<Entry>, key: Seq<char>, value: Json)
    requires
        entries_sorted(e),
    ensures
        entries_sorted(entries_insert(e, key, value)),
{
    lemma_position(e, key, 0);
    let p = entries_position(e, key, 0);
    let r = entries_insert(e, key, value);
    match entries_find(e, key) {
        Some(q) => {
            assert forall|i: int, j: int| 0 <= i < j < r.len() implies key_less(
                #[trigger] r[i].0,
                #[trigger] r[j].0,
            ) by {
                assert(r[i].0 == e[i].0);
                assert(r[j].0 == e[j].0);
            }
        },
        None => {
            assert forall|i: int, j: int| 0 <= i < j < r.len() implies key_less(
                #[trigger] r[i].0,
                #[trigger] r[j].0,
            ) by {
                if j < p {
                    assert(r[i] == e[i] && r[j] == e[j]);
                } else if j == p {
                    assert(r[i] == e[i]);
                    assert(key_less(e[i].0, key));
                } else if i < p {
                    assert(r[i] == e[i] && r[j] == e[j - 1]);
                    assert(key_less(e[i].0, e[j - 1].0));
                } else if i == p {
                    assert(r[j] == e[j - 1]);
                    assert(!key_less(e[p].0, key));
                    assert(e[p].0 != key);
                    lemma_key_total(e[p].0, key, 0);
                    if j - 1 > p {
                        assert(key_less(e[p].0, e[j - 1].0));
                        lemma_key_transitive(key, e[p].0, e[j - 1].0, 0);
                    }
                } else {
                    assert(r[i] == e[i - 1] && r[j] == e[j - 1]);
                }
            }
        },
    }
}

/// After a value was put under a key of a sorted list, that value is
/// found under the key, and under any other key what was there before.
pub proof fn law_insert_get(e: Seq<Entry>, key: Seq<char>, value: Json, other: Seq<char>)
    requires
        entries_sorted(e),
    ensures
        entries_get(entries_insert(e, key, value), key) == Some(value),
        other != key ==> entries_get(entries_insert(e, key, value), other) == entries_get(e, other),
{
    let r = entries_insert(e, key, value);
    lemma_insert_sorted(e, key, value);
    lemma_position(e, key, 0);
    let p = entries_position(e, key, 0);
    assert(r[p] == (key, value));
    lemma_get_is_lookup(r, key, p);
    if other != key {
        match entries_find(e, other) {
            Some(i) => {
                let j = if entries_find(e, key) is Some || i < p {
                    i
                } else {
                    i + 1
                };
                assert(r[j] == e[i]);
                lemma_get_is_lookup(r, other, j);
            },
            None => {
                if entries_find(r, other) is Some {
                    let j = entries_find(r, other)->0;
                    assert(r[j].0 == other);
                    assert(j != p);
                    let i = if entries_find(e, key) is Some || j < p {
                        j
                    } else {
                        j - 1
                    };
                    assert(e[i] == r[j]);
                    lemma_get_is_lookup(e, other, i);
                }
            },
        }
    }
}

/// Object overwrite: putting a second value under a key that has one
/// finds the first value there, replaces it, and leaves what putting the
/// second value alone would have left.
pub proof fn law_insert_overwrites(e: Seq<Entry>, key: Seq<char>, first: Json, second: Json)
    requires
        entries_sorted(e),
    ensures
        entries_get(entries_insert(e, key, first), key) == Some(first),
        entries_insert(entries_insert(e, key, first), key, second) == entries_insert(
            e,
            key,
            second,
        ),
        entries_get(entries_insert(entries_insert(e, key, first), key, second), key) == Some(
            second,
        ),
{
    let once = entries_insert(e, key, first);
    law_insert_get(e, key, first, key);
    lemma_insert_sorted(e, key, first);
    law_insert_get(once, key, second, key);
    lemma_position(e, key, 0);
    let p = entries_position(e, key, 0);
    assert(once[p] == (key, first));
    lemma_get_is_lookup(once, key, p);
    assert(entries_insert(once, key, second) =~= entries_insert(e, key, second));
}

/// Removing a key keeps a sorted list sorted.
pub proof fn lemma_remove_sorted(e: Seq<Entry>, key: Seq<char>)
    requires
        entries_sorted(e),
    ensures
        entries_sorted(entries_remove(e, key)),
{
    let r = entries_remove(e, key);
    match entries_find(e, key) {
        Some(p) => {
            assert forall|i: int, j: int| 0 <= i < j < r.len() implies key_less(
                #[trigger] r[i].0,
                #[trigger] r[j].0,
            ) by {
                let i0 = if i < p { i } else { i + 1 };
                let j0 = if j < p { j } else { j + 1 };
                assert(r[i] == e[i0] && r[j] == e[j0]);
            }
        },
        None => {},
    }
}

} // verus!
