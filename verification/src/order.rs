//! `<` and `partial_cmp` on objects and values.

use core::cmp::Ordering;
use vstd::prelude::*;
use vstd::std_specs::cmp::PartialOrdSpecImpl;
use crate::model::{Json, Order};
use crate::value::{Object, Value};

verus! {

/// An order as the standard library names it.
pub open spec fn std_order(order: Option<Order>) -> Option<Ordering> {
    match order {
        Some(Order::Less) => Some(Ordering::Less),
        Some(Order::Equal) => Some(Ordering::Equal),
        Some(Order::Greater) => Some(Ordering::Greater),
        None => None,
    }
}

fn to_std_order(order: Option<Order>) -> (r: Option<Ordering>)
    ensures
        r == std_order(order),
{
    match order {
        Some(Order::Less) => Some(Ordering::Less),
        Some(Order::Equal) => Some(Ordering::Equal),
        Some(Order::Greater) => Some(Ordering::Greater),
        None => None,
    }
}

impl PartialOrd for Object {
    fn partial_cmp(&self, other: &Object) -> (r: Option<Ordering>) {
        to_std_order(self.compare(other))
    }
}

impl PartialOrdSpecImpl for Object {
    open spec fn obeys_partial_cmp_spec() -> bool {
        true
    }

    open spec fn partial_cmp_spec(&self, other: &Object) -> Option<Ordering> {
        std_order(Json::Object(self@).compare(Json::Object(other@)))
    }
}

impl PartialOrd for Value {
    fn partial_cmp(&self, other: &Value) -> (r: Option<Ordering>) {
        to_std_order(self.compare(other))
    }
}

impl PartialOrdSpecImpl for Value {
    open spec fn obeys_partial_cmp_spec() -> bool {
        true
    }

    open spec fn partial_cmp_spec(&self, other: &Value) -> Option<Ordering> {
        std_order(self@.compare(other@))
    }
}

} // verus!
