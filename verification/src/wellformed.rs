//! Every tree that the grammar yields is well formed: its numbers are
//! written with digits, at least one before the point.

use vstd::prelude::*;
use crate::grammar::{
    array, digit_len, elements, json, lemma_space_len_bound, member, member_comma, members,
    more_elements, more_members, number, object, punct, scalar, string, trim, value,
};
use crate::progress::{lemma_member_comma_advances, lemma_punct_advances, lemma_string_advances};
use crate::laws::lemma_digit_run;
use crate::value::Json;

verus! {

/// Whether every value of a run of key and value pairs is well formed.
pub open spec fn all_pairs_wf(pairs: Seq<(Seq<char>, Json)>) -> bool {
    forall|i: int| 0 <= i < pairs.len() ==> (#[trigger] pairs[i]).1.wf()
}

/// Whether every tree of a run is well formed.
pub open spec fn all_wf(items: Seq<Json>) -> bool {
    forall|i: int| 0 <= i < items.len() ==> (#[trigger] items[i]).wf()
}

/// A well-formed tree in front of well-formed trees makes a run of well-formed trees.
proof fn lemma_all_wf_cons(first: Json, others: Seq<Json>)
    requires
        first.wf(),
        all_wf(others),
    ensures
        all_wf(seq![first] + others),
{
    let all = seq![first] + others;
    assert forall|i: int| 0 <= i < all.len() implies (#[trigger] all[i]).wf() by {
        if i > 0 {
            assert(all[i] == others[i - 1]);
        }
    }
}

/// A pair with a well-formed value in front of such pairs makes a run of such pairs.
proof fn lemma_all_pairs_wf_cons(first: (Seq<char>, Json), others: Seq<(Seq<char>, Json)>)
    requires
        first.1.wf(),
        all_pairs_wf(others),
    ensures
        all_pairs_wf(seq![first] + others),
{
    let all = seq![first] + others;
    assert forall|i: int| 0 <= i < all.len() implies (#[trigger] all[i]).1.wf() by {
        if i > 0 {
            assert(all[i] == others[i - 1]);
        }
    }
}

/// A number that was read is a well-formed literal.
pub proof fn lemma_number_wf(s: Seq<char>)
    ensures
        number(s) matches Ok((_, literal)) ==> literal.wf(),
{
    lemma_digit_run(s);
    let n = digit_len(s) as int;
    let t = s.skip(n);
    if t.len() > 0 {
        lemma_digit_run(t.skip(1));
    }
}

/// A value that holds no other, once read, is well formed.
pub proof fn lemma_scalar_wf(s: Seq<char>)
    ensures
        scalar(s) matches Ok((_, tree)) ==> tree.wf(),
{
    lemma_number_wf(s);
}

/// A value that was read is well formed.
pub proof fn lemma_value_wf(s: Seq<char>)
    ensures
        value(s) matches Ok((_, tree)) ==> tree.wf(),
    decreases s.len(), 3nat,
{
    let t = trim(s);
    lemma_space_len_bound(s);
    lemma_object_wf(t);
    lemma_array_wf(t);
    lemma_scalar_wf(t);
}

/// An object that was read is well formed.
pub proof fn lemma_object_wf(s: Seq<char>)
    ensures
        object(s) matches Ok((_, tree)) ==> tree.wf(),
    decreases s.len(), 2nat,
{
    lemma_punct_advances(s, '{');
    match punct(s, '{') {
        Err(_) => {},
        Ok((inner, _)) => lemma_members_wf(inner),
    }
}

/// A member that was read holds a well-formed value.
pub proof fn lemma_member_wf(s: Seq<char>)
    ensures
        member(s) matches Ok((_, pair)) ==> pair.1.wf(),
    decreases s.len(), 0nat,
{
    lemma_string_advances(s);
    match string(s) {
        Err(_) => {},
        Ok((after_key, _)) => {
            lemma_punct_advances(after_key, ':');
            match punct(after_key, ':') {
                Err(_) => {},
                Ok((after_colon, _)) => lemma_value_wf(after_colon),
            }
        },
    }
}

/// The members that were read hold well-formed values.
pub proof fn lemma_members_wf(s: Seq<char>)
    ensures
        all_pairs_wf(members(s).1),
    decreases s.len(), 1nat,
{
    lemma_member_wf(s);
    match member(s) {
        Ok((rest, first)) => {
            if rest.len() < s.len() {
                lemma_more_members_wf(rest);
                lemma_all_pairs_wf_cons(first, more_members(rest).1);
            }
        },
        Err(_) => {},
    }
}

/// The further members that were read hold well-formed values.
pub proof fn lemma_more_members_wf(s: Seq<char>)
    ensures
        all_pairs_wf(more_members(s).1),
    decreases s.len(), 1nat,
{
    lemma_member_comma_advances(s);
    match member_comma(s) {
        Err(_) => {},
        Ok((after_comma, _)) => {
            lemma_member_wf(after_comma);
            match member(after_comma) {
                Ok((rest, next)) => {
                    if rest.len() < s.len() {
                        lemma_more_members_wf(rest);
                        lemma_all_pairs_wf_cons(next, more_members(rest).1);
                    }
                },
                Err(_) => {},
            }
        },
    }
}

/// An array that was read is well formed.
pub proof fn lemma_array_wf(s: Seq<char>)
    ensures
        array(s) matches Ok((_, tree)) ==> tree.wf(),
    decreases s.len(), 2nat,
{
    lemma_punct_advances(s, '[');
    match punct(s, '[') {
        Err(_) => {},
        Ok((inner, _)) => lemma_elements_wf(inner),
    }
}

/// The elements that were read are well formed.
pub proof fn lemma_elements_wf(s: Seq<char>)
    ensures
        all_wf(elements(s).1),
    decreases s.len(), 4nat,
{
    lemma_value_wf(s);
    match value(s) {
        Ok((rest, first)) => {
            if rest.len() < s.len() {
                lemma_more_elements_wf(rest);
                lemma_all_wf_cons(first, more_elements(rest).1);
            }
        },
        Err(_) => {},
    }
}

/// The further elements that were read are well formed.
pub proof fn lemma_more_elements_wf(s: Seq<char>)
    ensures
        all_wf(more_elements(s).1),
    decreases s.len(), 4nat,
{
    lemma_punct_advances(s, ',');
    match punct(s, ',') {
        Err(_) => {},
        Ok((after_comma, _)) => {
            lemma_value_wf(after_comma);
            match value(after_comma) {
                Ok((rest, next)) => {
                    if rest.len() < s.len() {
                        lemma_more_elements_wf(rest);
                        lemma_all_wf_cons(next, more_elements(rest).1);
                    }
                },
                Err(_) => {},
            }
        },
    }
}

/// A whole text that was read gave a well-formed tree.
pub proof fn lemma_json_wf(s: Seq<char>)
    ensures
        json(s) matches Ok((_, tree)) ==> tree.wf(),
{
    lemma_value_wf(trim(s));
}

} // verus!
