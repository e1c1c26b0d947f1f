//! What is read off a listing of instances, value by value.

use crate::cidr::Cidr;
use crate::ip::{ip_less, ip_value, IpAddress};
use crate::json::JsonTree;
use crate::lxc::{
    field, field_in, law_every_instance_has_its_ips, matching_ips, mentions,
    output_value, plan_value, planned, planned_for, running, text_field,
};
use crate::register::host_name;
use crate::text::lower;
use crate::text_laws::{is_lowered, law_lower, lemma_lower_is};
use vstd::prelude::*;

verus! {

/// The value under a key is that of the first entry with the key; there is none where no entry
/// has it, and none in anything but an object.
pub proof fn law_value_under_a_key(s: Seq<(Seq<char>, JsonTree)>, key: Seq<char>, i: int, t: JsonTree)
    ensures
        0 <= i < s.len() && s[i].0 == key && (forall|j: int| 0 <= j < i ==> (#[trigger] s[j]).0 != key)
            ==> field(JsonTree::Object(s), key) == Some(s[i].1),
        (forall|j: int| 0 <= j < s.len() ==> (#[trigger] s[j]).0 != key) ==> field(
            JsonTree::Object(s),
            key,
        ) is None,
        !(t is Object) ==> field(t, key) is None,
{
    lemma_first_entry(s, key, i);
}

proof fn lemma_first_entry(s: Seq<(Seq<char>, JsonTree)>, key: Seq<char>, i: int)
    ensures
        0 <= i < s.len() && s[i].0 == key && (forall|j: int| 0 <= j < i ==> (#[trigger] s[j]).0 != key)
            ==> field_in(s, key) == Some(s[i].1),
        (forall|j: int| 0 <= j < s.len() ==> (#[trigger] s[j]).0 != key) ==> field_in(s, key) is None,
    decreases s.len(),
{
    if s.len() > 0 {
        let rest = s.skip(1);
        lemma_first_entry(rest, key, i - 1);
        assert(forall|j: int| 0 <= j < rest.len() ==> #[trigger] rest[j] == s[j + 1]);
        if 0 < i < s.len() && s[i].0 == key && (forall|j: int| 0 <= j < i ==> (#[trigger] s[j]).0
            != key) {
            assert(s[0].0 != key);
            assert(rest[i - 1] == s[i]);
            assert forall|j: int| 0 <= j < i - 1 implies (#[trigger] rest[j]).0 != key by {
                assert(s[j + 1].0 != key);
            }
        }
        if forall|j: int| 0 <= j < s.len() ==> (#[trigger] s[j]).0 != key {
            assert(s[0].0 != key);
            assert forall|j: int| 0 <= j < rest.len() implies (#[trigger] rest[j]).0 != key by {
                assert(s[j + 1].0 != key);
            }
        }
    }
}

/// A text under a key is the value under it, where that is a text.
pub proof fn law_text_under_a_key(t: JsonTree, key: Seq<char>, text: Seq<char>)
    ensures
        text_field(t, key) == Some(text) <==> field(t, key) == Some(JsonTree::Text(text)),
{
}

/// An instance is running exactly where its status is the word, in any case: its own status
/// where that is a text, and else the one in its state.
pub proof fn law_running(t: JsonTree)
    ensures
        running(t) <==> match text_field(t, "status"@) {
            Some(s) => is_lowered(s, "running"@),
            None => match field(t, "state"@) {
                Some(state) => match text_field(state, "status"@) {
                    Some(s) => is_lowered(s, "running"@),
                    None => false,
                },
                None => false,
            },
        },
{
    lemma_is_word(t, "status"@);
    match field(t, "state"@) {
        Some(state) => {
            lemma_is_word(state, "status"@);
        },
        None => {},
    }
}

proof fn lemma_is_word(t: JsonTree, key: Seq<char>)
    ensures
        text_field(t, key) matches Some(s) ==> (lower(s) == "running"@ <==> is_lowered(
            s,
            "running"@,
        )),
{
    match text_field(t, key) {
        Some(s) => {
            law_lower(s);
            if is_lowered(s, "running"@) {
                lemma_lower_is(s, "running"@);
            }
        },
        None => {},
    }
}

/// An object mentions the address under its key `address`; whatever a part of an object or an
/// array mentions, the whole does, at any depth; and nothing mentions more.
pub proof fn law_mentions(s: Seq<(Seq<char>, JsonTree)>, a: Seq<JsonTree>, t: JsonTree, ip: IpAddress)
    ensures
        mentions(JsonTree::Object(s), ip) <==> (exists|text: Seq<char>|
            text_field(JsonTree::Object(s), "address"@) == Some(text) && #[trigger] ip_value(text)
                == Some(ip)) || exists|i: int| 0 <= i < s.len() && mentions((#[trigger] s[i]).1, ip),
        mentions(JsonTree::Array(a), ip) <==> exists|i: int|
            0 <= i < a.len() && mentions(#[trigger] a[i], ip),
        !(t is Object) && !(t is Array) ==> !mentions(t, ip),
{
    let whole = JsonTree::Array(a);
    assert(whole->Array_0 == a);
    if mentions(whole, ip) {
        let i = choose|i: int| 0 <= i < a.len() && mentions(#[trigger] a[i], ip);
        assert(mentions(a[i], ip));
    }
    let o = JsonTree::Object(s);
    if mentions(o, ip) && text_field(o, "address"@) is Some && ip_value(
        text_field(o, "address"@)->0,
    ) == Some(ip) {
        assert(ip_value(text_field(o, "address"@)->0) == Some(ip));
    }
}

/// The addresses of an instance are those that its state mentions and the range holds, each
/// once, in their order.
pub proof fn law_addresses_of_an_instance(t: JsonTree, mask: Cidr, ip: IpAddress)
    ensures
        ({
            let ips = matching_ips(t, mask);
            &&& ips.contains(ip) <==> (field(t, "state"@) matches Some(state) && mentions(state, ip)
                && mask.has(ip))
            &&& forall|i: int, j: int|
                0 <= i < j < ips.len() ==> ip_less(#[trigger] ips[i], #[trigger] ips[j])
        }),
{
    law_every_instance_has_its_ips(t, mask);
}

/// For a named and running instance its host name is planned under each of its addresses, in
/// their order, and for another instance nothing.
pub proof fn law_plan_of_one_instance(t: JsonTree, suffix: Seq<char>, mask: Cidr)
    ensures
        ({
            let plan = planned(seq![t], suffix, mask);
            let ips = matching_ips(t, mask);
            match text_field(t, "name"@) {
                Some(name) => if running(t) {
                    &&& plan.len() == ips.len()
                    &&& forall|i: int|
                        0 <= i < ips.len() ==> (#[trigger] plan[i]).0 == ips[i] && plan[i].1
                            == host_name(name, suffix)
                } else {
                    plan.len() == 0
                },
                None => plan.len() == 0,
            }
        }),
{
    let one = seq![t];
    assert(one.drop_last() =~= Seq::<JsonTree>::empty());
    assert(planned(one.drop_last(), suffix, mask) =~= Seq::empty());
    assert(planned(one, suffix, mask) =~= planned_for(t, suffix, mask));
}

/// Instances are planned one after the other, in the order of the listing.
pub proof fn law_plan_in_order(
    first: Seq<JsonTree>,
    second: Seq<JsonTree>,
    suffix: Seq<char>,
    mask: Cidr,
)
    ensures
        planned(first + second, suffix, mask) == planned(first, suffix, mask) + planned(
            second,
            suffix,
            mask,
        ),
    decreases second.len(),
{
    if second.len() == 0 {
        assert(first + second =~= first);
        assert(planned(first, suffix, mask) + planned(second, suffix, mask) =~= planned(
            first,
            suffix,
            mask,
        ));
    } else {
        let all = first + second;
        assert(all.drop_last() =~= first + second.drop_last());
        assert(all.last() == second.last());
        law_plan_in_order(first, second.drop_last(), suffix, mask);
        assert(planned(all, suffix, mask) =~= planned(first, suffix, mask) + planned(
            second,
            suffix,
            mask,
        ));
    }
}

/// A listing that is an array is planned whole; another value, or none, is refused.
pub proof fn law_only_arrays_are_planned(
    root: Option<JsonTree>,
    suffix: Seq<char>,
    mask: Cidr,
    items: Seq<JsonTree>,
)
    ensures
        root == Some(JsonTree::Array(items)) ==> output_value(root, suffix, mask) == Ok::<
            Seq<(IpAddress, Seq<char>)>,
            Seq<char>,
        >(planned(items, suffix, mask)),
        root is None || !(root->0 is Array) ==> output_value(root, suffix, mask) is Err,
        root is Some ==> output_value(root, suffix, mask) == plan_value(root->0, suffix, mask),
{
}

} // verus!
