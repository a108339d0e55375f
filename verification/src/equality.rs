//! Structural equality of values: two trees are equal when they are seen as
//! the same mathematical tree.

use vstd::prelude::*;
use vstd::std_specs::cmp::PartialEqSpecImpl;
use crate::value::{lemma_array_view, lemma_object_view, pair_views, views, Decimal, JsonValue};

verus! {

/// Two numbers are equal when they are written with the same digits: `1.5`
/// and `1.50` are different numbers here.
impl PartialEq for Decimal {
    fn eq(&self, other: &Self) -> (res: bool) {
        self.integer == other.integer && self.fraction == other.fraction
    }
}

impl PartialEqSpecImpl for Decimal {
    open spec fn obeys_eq_spec() -> bool {
        true
    }

    open spec fn eq_spec(&self, other: &Self) -> bool {
        self@ == other@
    }
}

/// Whether two runs of values are seen as the same run of trees.
fn same_items(left: &Vec<JsonValue>, right: &Vec<JsonValue>) -> (res: bool)
    ensures
        res == (views(left@) == views(right@)),
    decreases left,
{
    if left.len() != right.len() {
        proof {
            assert(views(left@).len() != views(right@).len());
        }
        return false;
    }
    let mut i: usize = 0;
    while i < left.len()
        invariant
            i <= left.len(),
            left.len() == right.len(),
            forall|j: int| 0 <= j < i ==> left[j]@ == right[j]@,
        decreases left.len() - i,
    {
        if !same_tree(&left[i], &right[i]) {
            proof {
                assert(views(left@)[i as int] == left[i as int]@);
                assert(views(right@)[i as int] == right[i as int]@);
            }
            return false;
        }
        i += 1;
    }
    proof {
        assert(views(left@) =~= views(right@));
    }
    true
}

/// Whether two runs of pairs are seen as the same run of keys and trees.
fn same_pairs(left: &Vec<(String, JsonValue)>, right: &Vec<(String, JsonValue)>) -> (res: bool)
    ensures
        res == (pair_views(left@) == pair_views(right@)),
    decreases left,
{
    if left.len() != right.len() {
        proof {
            assert(pair_views(left@).len() != pair_views(right@).len());
        }
        return false;
    }
    let mut i: usize = 0;
    while i < left.len()
        invariant
            i <= left.len(),
            left.len() == right.len(),
            forall|j: int| 0 <= j < i ==> left[j].0@ == right[j].0@ && left[j].1@ == right[j].1@,
        decreases left.len() - i,
    {
        let same_key = left[i].0 == right[i].0;
        if !same_key || !same_tree(&left[i].1, &right[i].1) {
            proof {
                assert(pair_views(left@)[i as int] == (left[i as int].0@, left[i as int].1@));
                assert(pair_views(right@)[i as int] == (right[i as int].0@, right[i as int].1@));
            }
            return false;
        }
        i += 1;
    }
    proof {
        assert(pair_views(left@) =~= pair_views(right@));
    }
    true
}

/// A value is seen as a tree of its own kind.
proof fn lemma_view_keeps_kind(v: JsonValue)
    ensures
        v is Object <==> v@ is Object,
        v is Array <==> v@ is Array,
        v is String <==> v@ is String,
        v is Number <==> v@ is Number,
        v is Boolean <==> v@ is Boolean,
        v is Null <==> v@ is Null,
{
}

/// Whether two values are seen as the same tree.
fn same_tree(left: &JsonValue, right: &JsonValue) -> (res: bool)
    ensures
        res == (left@ == right@),
    decreases left,
{
    proof {
        lemma_view_keeps_kind(*left);
        lemma_view_keeps_kind(*right);
    }
    match left {
        JsonValue::Object(a) => match right {
            JsonValue::Object(b) => {
                proof {
                    lemma_object_view(*a);
                    lemma_object_view(*b);
                }
                same_pairs(a, b)
            },
            _ => false,
        },
        JsonValue::Array(a) => match right {
            JsonValue::Array(b) => {
                proof {
                    lemma_array_view(*a);
                    lemma_array_view(*b);
                }
                same_items(a, b)
            },
            _ => false,
        },
        JsonValue::String(a) => match right {
            JsonValue::String(b) => *a == *b,
            _ => false,
        },
        JsonValue::Number(a) => match right {
            JsonValue::Number(b) => *a == *b,
            _ => false,
        },
        JsonValue::Boolean(a) => match right {
            JsonValue::Boolean(b) => *a == *b,
            _ => false,
        },
        JsonValue::Null => match right {
            JsonValue::Null => true,
            _ => false,
        },
    }
}

/// Two values are equal when they are of the same kind and hold equal parts
/// in the same order.
impl PartialEq for JsonValue {
    fn eq(&self, other: &Self) -> (res: bool) {
        same_tree(self, other)
    }
}

impl PartialEqSpecImpl for JsonValue {
    open spec fn obeys_eq_spec() -> bool {
        true
    }

    open spec fn eq_spec(&self, other: &Self) -> bool {
        self@ == other@
    }
}

} // verus!
