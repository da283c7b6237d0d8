//! Properties that hold across operations of the store.
use vstd::prelude::*;
use crate::items::credit_of;
use crate::lists::list_created;
use crate::pantry::{
    is_short, lemma_shortfalls_members, lemma_shortfalls_unique, refill_item, refilled, shortfalls,
};
use crate::quantity::{decimal_of, lemma_quantity_of_decimal, lemma_quantity_range};
use crate::rows::{
    lemma_first_match_none, lemma_first_match_range, lemma_outside_of_contains, outside_of,
    ItemRow, PantryRow,
};
use crate::store::{item_key, list_key, pantry_key, Store};
use crate::types::{Error, ListStatus};

verus! {

/// A user whose share of a list is read-only may read the list but never
/// write it: every write operation is refused with `NotAuthorized`.
pub proof fn lemma_read_share_cannot_write(s: Store, user: u128, list: u128)
    requires
        s.status(user, list) == Some(ListStatus::SharedRead),
    ensures
        s.access(user, list, true) == Err::<(), Error>(Error::NotAuthorized),
        s.access(user, list, false) == Ok::<(), Error>(()),
        forall|id: i32| s.delete_outcome(user, list, id) == Err::<(), Error>(Error::NotAuthorized),
{
}

/// Deleting a list item credits back exactly what its amount reads as to
/// the pantry item that it restocks, and leaves every other pantry amount
/// as it was; an item without a link changes no pantry amount.
pub proof fn lemma_credit_conserves_quantity(s: Store, r: ItemRow)
    requires
        s.wf(),
        s.items@.contains(r),
        !s.credit_overflows(r),
    ensures
        s.credited(r).len() == s.pantry@.len(),
        r.from_pantry is None ==> s.credited(r) == s.pantry@,
        r.from_pantry is Some ==> s.credit_index(r) >= 0 && s.credited(r)[s.credit_index(r)].amount
            == s.pantry@[s.credit_index(r)].amount + credit_of(r),
        forall|q: int|
            0 <= q < s.pantry@.len() && q != s.credit_index(r) ==> #[trigger] s.credited(r)[q] == s.pantry@[q],
{
    let k = choose|k: int| 0 <= k < s.items@.len() && s.items@[k] == r;
    assert(s.link_ok(s.items@[k]));
    if r.from_pantry is Some {
        let p = r.from_pantry->0;
        lemma_first_match_range(s.pantry@, pantry_key(r.list, p));
        let q = choose|q: int|
            0 <= q < s.pantry@.len() && #[trigger] s.pantry@[q].list == r.list && s.pantry@[q].id == p;
        assert(pantry_key(r.list, p)(s.pantry@[q]));
        assert(s.credit_index(r) >= 0);
        if let Some(a) = r.amount {
            lemma_quantity_range(a@);
        }
    }
}

/// Consuming the list item that refill made for a pantry item, while that
/// pantry item is as it was at the refill, brings it up to its target.
pub proof fn lemma_consuming_refill_restores_target(s: Store, r: ItemRow, p: PantryRow, id: int)
    requires
        refill_item(r, p, id),
        is_short(p),
        s.has_pantry(p.list, p.id),
        s.pantry@[s.pantry_index(p.list, p.id)] == p,
    ensures
        s.credit_index(r) == s.pantry_index(p.list, p.id),
        !s.credit_overflows(r),
        s.credited(r)[s.credit_index(r)].amount == p.target->0,
{
    lemma_quantity_of_decimal((p.target->0 - p.amount) as nat);
}

/// A deleted list item cannot be deleted a second time: once the first
/// deletion succeeded, the same request finds no such item.
pub proof fn lemma_delete_not_reappliable(pre: Store, post: Store, user: u128, list: u128, id: i32)
    requires
        pre.wf(),
        pre.delete_outcome(user, list, id) is Ok,
        post.lists@ == pre.lists@,
        post.shares@ == pre.shares@,
        post.items@ == pre.items@.remove(pre.item_index(list, id)),
    ensures
        post.delete_outcome(user, list, id) == Err::<(), Error>(Error::NotFound),
{
    let k = pre.item_index(list, id);
    lemma_first_match_range(pre.items@, item_key(list, id));
    assert forall|j: int| 0 <= j < post.items@.len() implies !item_key(list, id)(post.items@[j]) by {
        let j2 = if j < k { j } else { j + 1 };
        assert(post.items@[j] == pre.items@[j2]);
        assert((pre.items@[j2].list, pre.items@[j2].id) != (pre.items@[k].list, pre.items@[k].id));
    }
    lemma_first_match_none(post.items@, item_key(list, id));
}

/// List names are unique per owner, not globally: once an owner has
/// created a list called `name`, that owner has a list of that name (so a
/// second creation is refused with `AlreadyExists`), while whether any
/// other owner has one is unchanged (so theirs is not refused for it).
pub proof fn lemma_names_unique_per_owner(
    pre: Store,
    post: Store,
    owner: u128,
    other: u128,
    name: String,
    id: u128,
)
    requires
        list_created(pre, post, owner, name, id),
        other != owner,
    ensures
        post.owns_name(owner, name@),
        post.owns_name(other, name@) == pre.owns_name(other, name@),
{
    let n = pre.lists@.len() as int;
    assert(post.lists@[n].owner == owner && post.lists@[n].name@ == name@);
    if pre.owns_name(other, name@) {
        let i = choose|i: int| 0 <= i < pre.lists@.len() && #[trigger] pre.lists@[i].owner == other
            && pre.lists@[i].name@ == name@;
        assert(post.lists@[i] == pre.lists@[i]);
    }
    if post.owns_name(other, name@) {
        let i = choose|i: int| 0 <= i < post.lists@.len() && #[trigger] post.lists@[i].owner == other
            && post.lists@[i].name@ == name@;
        assert(i != n);
        assert(post.lists@[i] == pre.lists@[i]);
    }
}

/// After a list is deleted nothing of it remains: no share, item, pantry
/// item or history entry refers to it, and every access to it, reading
/// included, is refused with `NotFound`.
pub proof fn lemma_deleted_list_is_gone(pre: Store, post: Store, list: u128)
    requires
        post.lists@ == outside_of(pre.lists@, list),
        post.shares@ == outside_of(pre.shares@, list),
        post.items@ == outside_of(pre.items@, list),
        post.pantry@ == outside_of(pre.pantry@, list),
        post.history@ == outside_of(pre.history@, list),
    ensures
        !post.has_list(list),
        forall|user: u128, write: bool| post.access(user, list, write) == Err::<(), Error>(Error::NotFound),
        forall|k: int| 0 <= k < post.shares@.len() ==> #[trigger] post.shares@[k].list != list,
        forall|k: int| 0 <= k < post.items@.len() ==> #[trigger] post.items@[k].list != list,
        forall|k: int| 0 <= k < post.pantry@.len() ==> #[trigger] post.pantry@[k].list != list,
        forall|k: int| 0 <= k < post.history@.len() ==> #[trigger] post.history@[k].list != list,
{
    lemma_outside_of_contains(pre.lists@, list);
    lemma_outside_of_contains(pre.shares@, list);
    lemma_outside_of_contains(pre.items@, list);
    lemma_outside_of_contains(pre.pantry@, list);
    lemma_outside_of_contains(pre.history@, list);
    assert forall|j: int| 0 <= j < post.lists@.len() implies !list_key(list)(post.lists@[j]) by {
        assert(post.lists@.contains(post.lists@[j]));
    }
    lemma_first_match_none(post.lists@, list_key(list));
    assert forall|k: int| 0 <= k < post.shares@.len() implies #[trigger] post.shares@[k].list != list by {
        assert(post.shares@.contains(post.shares@[k]));
    }
    assert forall|k: int| 0 <= k < post.items@.len() implies #[trigger] post.items@[k].list != list by {
        assert(post.items@.contains(post.items@[k]));
    }
    assert forall|k: int| 0 <= k < post.pantry@.len() implies #[trigger] post.pantry@[k].list != list by {
        assert(post.pantry@.contains(post.pantry@[k]));
    }
    assert forall|k: int| 0 <= k < post.history@.len() implies #[trigger] post.history@[k].list != list by {
        assert(post.history@.contains(post.history@[k]));
    }
}

/// Refill is driven by shortfalls: where the caller may write the list and
/// item identities are not exhausted, the refill succeeds, keeps the old
/// items, adds one item per pantry item that holds less than its target and
/// no other, and for each such pantry item exactly one new item restocks it,
/// with its name and the missing quantity as its amount.
#[verifier::rlimit(40)]
pub proof fn lemma_refill_one_item_per_shortfall(pre: Store, post: Store, user: u128, list: u128)
    requires
        pre.wf(),
        pre.access(user, list, true) is Ok,
        pre.next_item + shortfalls(pre.pantry@, list).len() <= i32::MAX,
        refilled(pre, post, list),
    ensures
        pre.refill_outcome(user, list) is Ok,
        post.items@.subrange(0, pre.items@.len() as int) == pre.items@,
        post.items@.len() - pre.items@.len() == shortfalls(pre.pantry@, list).len(),
        forall|q: int| #![trigger pre.pantry@[q]]
            0 <= q < pre.pantry@.len() && pre.pantry@[q].list == list && is_short(pre.pantry@[q]) ==> exists|k: int|
                pre.items@.len() <= k < post.items@.len() && #[trigger] post.items@[k].from_pantry == Some(
                    pre.pantry@[q].id,
                ) && post.items@[k].list == list && post.items@[k].name == pre.pantry@[q].name
                && post.items@[k].amount is Some && post.items@[k].amount->0@ == decimal_of(
                    (pre.pantry@[q].target->0 - pre.pantry@[q].amount) as nat,
                ),
        forall|q: int, k1: int, k2: int| #![trigger pre.pantry@[q], post.items@[k1], post.items@[k2]]
            0 <= q < pre.pantry@.len() && pre.pantry@[q].list == list && pre.items@.len() <= k1
                < post.items@.len() && pre.items@.len() <= k2 < post.items@.len() && post.items@[k1].from_pantry
                == Some(pre.pantry@[q].id) && post.items@[k2].from_pantry == Some(pre.pantry@[q].id)
                ==> k1 == k2,
        forall|k: int| #![trigger post.items@[k]]
            pre.items@.len() <= k < post.items@.len() ==> exists|q: int|
                0 <= q < pre.pantry@.len() && #[trigger] pre.pantry@[q].list == list && is_short(pre.pantry@[q])
                    && post.items@[k].from_pantry == Some(pre.pantry@[q].id),
{
    let n = pre.items@.len() as int;
    let sf = shortfalls(pre.pantry@, list);
    lemma_shortfalls_members(pre.pantry@, list);
    lemma_shortfalls_unique(pre.pantry@, list);
    assert forall|q: int| #![trigger pre.pantry@[q]]
        0 <= q < pre.pantry@.len() && pre.pantry@[q].list == list && is_short(pre.pantry@[q]) implies exists|k: int|
            n <= k < post.items@.len() && #[trigger] post.items@[k].from_pantry == Some(pre.pantry@[q].id)
                && post.items@[k].list == list && post.items@[k].name == pre.pantry@[q].name
                && post.items@[k].amount is Some && post.items@[k].amount->0@ == decimal_of(
                (pre.pantry@[q].target->0 - pre.pantry@[q].amount) as nat,
            ) by {
        assert(sf.contains(pre.pantry@[q]));
        let j = choose|j: int| 0 <= j < sf.len() && sf[j] == pre.pantry@[q];
        assert(refill_item(post.items@[n + j], sf[n + j - n], pre.next_item + (n + j) - n));
        assert(n + j - n == j);
    }
    assert forall|q: int, k1: int, k2: int| #![trigger pre.pantry@[q], post.items@[k1], post.items@[k2]]
        0 <= q < pre.pantry@.len() && pre.pantry@[q].list == list && n <= k1 < post.items@.len() && n <= k2
            < post.items@.len() && post.items@[k1].from_pantry == Some(pre.pantry@[q].id)
            && post.items@[k2].from_pantry == Some(pre.pantry@[q].id) implies k1 == k2 by {
        assert(refill_item(post.items@[k1], sf[k1 - n], pre.next_item + k1 - n));
        assert(refill_item(post.items@[k2], sf[k2 - n], pre.next_item + k2 - n));
        assert(sf[k1 - n].list == list && sf[k2 - n].list == list);
    }
    assert forall|k: int| #![trigger post.items@[k]] n <= k < post.items@.len() implies exists|q: int|
        0 <= q < pre.pantry@.len() && #[trigger] pre.pantry@[q].list == list && is_short(pre.pantry@[q])
            && post.items@[k].from_pantry == Some(pre.pantry@[q].id) by {
        assert(refill_item(post.items@[k], sf[k - n], pre.next_item + k - n));
        assert(pre.pantry@.contains(sf[k - n]));
        let q = choose|q: int| 0 <= q < pre.pantry@.len() && pre.pantry@[q] == sf[k - n];
        assert(pre.pantry@[q].list == list);
    }
}

/// Where the caller may write the list, the item exists and its credit fits,
/// deleting it succeeds; its pantry item, if it has one, grows by exactly
/// what the deleted amount reads as, and every other pantry amount stays.
pub proof fn lemma_delete_credits_pantry(s: Store, user: u128, list: u128, id: i32)
    requires
        s.wf(),
        s.access(user, list, true) is Ok,
        s.has_item(list, id),
        !s.credit_overflows(s.items@[s.item_index(list, id)]),
    ensures
        s.delete_outcome(user, list, id) is Ok,
        ({
            let r = s.items@[s.item_index(list, id)];
            &&& s.credited(r).len() == s.pantry@.len()
            &&& r.from_pantry is None ==> s.credited(r) == s.pantry@
            &&& r.from_pantry is Some ==> s.credit_index(r) >= 0 && s.credited(r)[s.credit_index(r)].amount
                == s.pantry@[s.credit_index(r)].amount + credit_of(r)
            &&& forall|q: int|
                0 <= q < s.pantry@.len() && q != s.credit_index(r) ==> #[trigger] s.credited(r)[q] == s.pantry@[q]
        }),
{
    lemma_first_match_range(s.items@, item_key(list, id));
    let k = s.item_index(list, id);
    assert(s.items@.contains(s.items@[k]));
    lemma_credit_conserves_quantity(s, s.items@[k]);
}

} // verus!
