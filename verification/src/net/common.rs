//! The objects that a client and a server both have.

use vstd::prelude::*;

use crate::text::{is_listed, texts};

verus! {

/// `indexmap::IndexSet`, a set that keeps the order in which its items came.
#[verifier::external_type_specification]
#[verifier::external_body]
#[verifier::reject_recursive_types(T)]
#[verifier::reject_recursive_types(S)]
pub struct ExIndexSet<T, S>(indexmap::IndexSet<T, S>);

/// The IDs of the objects that a client and a server may both have, in order.
pub type CommonObjects = indexmap::IndexSet<String>;

/// The items of a set, in order.
pub uninterp spec fn set_items(s: indexmap::IndexSet<String>) -> Seq<Seq<char>>;

/// `indexmap::IndexSet::new` makes a set without items.
#[verifier::external_body]
pub(crate) fn new_common() -> (r: CommonObjects)
    ensures
        set_items(r) == Seq::<Seq<char>>::empty(),
{
    indexmap::IndexSet::new()
}

/// `indexmap::IndexSet::len` counts the items.
#[verifier::external_body]
pub(crate) fn common_len(s: &CommonObjects) -> (r: usize)
    ensures
        r == set_items(*s).len(),
{
    s.len()
}

/// `indexmap::IndexSet::insert` adds an item as the last one, unless the set holds it.
#[verifier::external_body]
pub(crate) fn add_common(s: &mut CommonObjects, item: String)
    ensures
        set_items(*final(s)) == if set_items(*old(s)).contains(item@) {
            set_items(*old(s))
        } else {
            set_items(*old(s)).push(item@)
        },
{
    s.insert(item);
}

/// The items that a list holds.
pub open spec fn listed_in(list: Seq<Seq<char>>) -> spec_fn(Seq<char>) -> bool {
    |x: Seq<char>| list.contains(x)
}

/// `indexmap::IndexSet::retain` drops the items that a function does not accept, here those that
/// a list does not hold, and keeps the order of the others.
#[verifier::external_body]
pub(crate) fn retain_common(s: &mut CommonObjects, list: &[String])
    ensures
        set_items(*final(s)) == set_items(*old(s)).filter(listed_in(texts(list@))),
{
    s.retain(|x| is_listed(list, x.as_str()))
}

/// `indexmap::IndexSet::iter` goes through the items in order, and none occurs twice.
#[verifier::external_body]
pub(crate) fn list_common(s: &CommonObjects) -> (r: Vec<String>)
    ensures
        texts(r@) == set_items(*s),
        texts(r@).no_duplicates(),
{
    s.iter().cloned().collect()
}

} // verus!
