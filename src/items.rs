//! Operations on list items, with the history of names that additions
//! keep and the pantry credit that deletions give back, and list deletion.
use vstd::prelude::*;
use crate::platform::{fold_name, folded};
use crate::quantity::{parse_quantity, quantity_of, MAX_QUANTITY};
use crate::rows::{
    first_match, lemma_first_match_none, lemma_first_match_range, lemma_outside_of_contains,
    lemma_outside_of_unique, lemma_remove_unique, outside_of, remove_members, HistoryRow, ItemRow,
    ListRow, PantryRow, ShareRow,
};
use crate::store::{history_key, item_key, pantry_key, Store};
use crate::types::Error;

verus! {

/// Whether `post` is `history` with the entry of `(list, creator, name)`
/// stamped with `now`: the first such entry where there is one, else a new
/// entry at the end.
pub open spec fn history_touched(
    history: Seq<HistoryRow>,
    post: Seq<HistoryRow>,
    list: u128,
    creator: u128,
    name: Seq<char>,
    now: u64,
) -> bool {
    let k = first_match(history, history_key(list, creator, name));
    if k >= 0 {
        post == history.update(k, HistoryRow { last_used: now, ..history[k] })
    } else {
        &&& post.len() == history.len() + 1
        &&& post.drop_last() == history
        &&& post.last().list == list
        &&& post.last().creator == creator
        &&& post.last().name@ == name
        &&& post.last().last_used == now
    }
}

/// A list item after an update: each of name and amount replaced where given.
pub open spec fn updated_item(r: ItemRow, name: Option<String>, amount: Option<String>) -> ItemRow {
    ItemRow {
        name: match name {
            Some(n) => n,
            None => r.name,
        },
        amount: match amount {
            Some(a) => Some(a),
            None => r.amount,
        },
        ..r
    }
}

/// The quantity that deleting a list item gives back to its pantry item:
/// what its amount reads as, and zero where it has none.
pub open spec fn credit_of(r: ItemRow) -> int {
    match r.amount {
        Some(a) => quantity_of(a@),
        None => 0,
    }
}

/// Whether only the list items (and their counter) and the history changed.
pub open spec fn items_changed_only(pre: Store, post: Store) -> bool {
    &&& post.lists@ == pre.lists@
    &&& post.shares@ == pre.shares@
    &&& post.pantry@ == pre.pantry@
    &&& post.next_pantry == pre.next_pantry
}

impl Store {
    /// The index of the pantry item that a list item restocks, or -1.
    pub open spec fn credit_index(self, r: ItemRow) -> int {
        match r.from_pantry {
            Some(p) => self.pantry_index(r.list, p),
            None => -1,
        }
    }

    /// The pantry after `r` is deleted: its pantry item, if any, credited.
    pub open spec fn credited(self, r: ItemRow) -> Seq<PantryRow> {
        let q = self.credit_index(r);
        if q >= 0 {
            self.pantry@.update(
                q,
                PantryRow { amount: (self.pantry@[q].amount + credit_of(r)) as u32, ..self.pantry@[q] },
            )
        } else {
            self.pantry@
        }
    }

    /// The result of deleting item `id` of `list` on behalf of `user`.
    pub open spec fn delete_outcome(self, user: u128, list: u128, id: i32) -> Result<(), Error> {
        if self.access(user, list, true) is Err {
            self.access(user, list, true)
        } else if !self.has_item(list, id) {
            Err(Error::NotFound)
        } else if self.credit_overflows(self.items@[self.item_index(list, id)]) {
            Err(Error::InternalError)
        } else {
            Ok(())
        }
    }

    /// Whether crediting `r` back would overflow its pantry item's amount.
    pub open spec fn credit_overflows(self, r: ItemRow) -> bool {
        let q = self.credit_index(r);
        q >= 0 && self.pantry@[q].amount + credit_of(r) > MAX_QUANTITY
    }

    /// Adds an item to `list` for `user`, recording `key`, the folded form
    /// of its name, in the history. Needs write access; `InternalError`
    /// where item identities are exhausted. Returns the new item's identity.
    pub fn add_item_folded(
        &mut self,
        user: u128,
        list: u128,
        name: String,
        amount: Option<String>,
        key: String,
        now: u64,
    ) -> (r: Result<i32, Error>)
        requires
            old(self).wf(),
        ensures
            final(self).wf(),
            old(self).access(user, list, true) is Err ==> r is Err && r->Err_0 == old(self).access(
                user,
                list,
                true,
            )->Err_0,
            old(self).access(user, list, true) is Ok && old(self).next_item == i32::MAX ==> r
                == Err::<i32, Error>(Error::InternalError),
            old(self).access(user, list, true) is Ok && old(self).next_item < i32::MAX ==> r == Ok::<
                i32,
                Error,
            >(old(self).next_item),
            r is Err ==> *final(self) == *old(self),
            r is Ok ==> items_changed_only(*old(self), *final(self)),
            r is Ok ==> final(self).items@ == old(self).items@.push(
                ItemRow { list, id: old(self).next_item, name, amount, from_pantry: None },
            ),
            r is Ok ==> final(self).next_item == old(self).next_item + 1,
            r is Ok ==> history_touched(old(self).history@, final(self).history@, list, user, key@, now),
    {
        match self.require_access(user, list, true) {
            Err(e) => {
                return Err(e);
            },
            Ok(()) => {},
        }
        if self.next_item == i32::MAX {
            return Err(Error::InternalError);
        }
        let id = self.next_item;
        let ghost pre = *self;
        let found = self.find_history(list, user, &key);
        proof {
            lemma_first_match_range(pre.history@, history_key(list, user, key@));
        }
        self.items.push(ItemRow { list, id, name, amount, from_pantry: None });
        self.next_item = id + 1;
        match found {
            Some(k) => {
                self.history[k].last_used = now;
            },
            None => {
                self.history.push(HistoryRow { list, creator: user, name: key, last_used: now });
            },
        }
        proof {
            let post = *self;
            Store::lemma_shares_kept(pre, post);
            if found is Some {
                assert(post.history@ =~= pre.history@.update(
                    found->0 as int,
                    HistoryRow { last_used: now, ..pre.history@[found->0 as int] },
                ));
            } else {
                assert(post.history@.drop_last() =~= pre.history@);
                assert forall|a: int| 0 <= a < pre.history@.len() implies !history_key(list, user, key@)(
                    #[trigger] pre.history@[a],
                ) by {}
            }
            assert forall|a: int, b: int|
                0 <= a < post.history@.len() && 0 <= b < post.history@.len() && a != b
                    implies (post.history@[a].list, post.history@[a].creator, post.history@[a].name@) != (
                    post.history@[b].list,
                    post.history@[b].creator,
                    post.history@[b].name@,
                ) by {
                if a < pre.history@.len() && b < pre.history@.len() {
                    assert(post.history@[a].list == pre.history@[a].list && post.history@[a].creator
                        == pre.history@[a].creator && post.history@[a].name == pre.history@[a].name);
                    assert(post.history@[b].list == pre.history@[b].list && post.history@[b].creator
                        == pre.history@[b].creator && post.history@[b].name == pre.history@[b].name);
                } else if a < pre.history@.len() {
                    assert(!history_key(list, user, key@)(pre.history@[a]));
                } else if b < pre.history@.len() {
                    assert(!history_key(list, user, key@)(pre.history@[b]));
                }
            }
            assert forall|k: int| 0 <= k < post.items@.len() implies post.link_ok(#[trigger] post.items@[k]) by {
                if k < pre.items@.len() {
                    assert(post.items@[k] == pre.items@[k]);
                    assert(pre.link_ok(pre.items@[k]));
                }
            }
            assert forall|k: int| 0 <= k < post.items@.len() implies #[trigger] post.items@[k].id < post.next_item by {
                if k < pre.items@.len() {
                    assert(post.items@[k] == pre.items@[k]);
                }
            }
            assert forall|a: int, b: int|
                0 <= a < post.items@.len() && 0 <= b < post.items@.len() && a != b
                    implies (post.items@[a].list, post.items@[a].id) != (post.items@[b].list, post.items@[b].id) by {
                if a < pre.items@.len() {
                    assert(post.items@[a] == pre.items@[a]);
                    assert(pre.items@[a].id < pre.next_item);
                }
                if b < pre.items@.len() {
                    assert(post.items@[b] == pre.items@[b]);
                    assert(pre.items@[b].id < pre.next_item);
                }
            }
        }
        Ok(id)
    }

    /// Adds an item to `list` for `user` and records its name, folded to
    /// lower case, as used by `user` at time `now`. Needs write access;
    /// `InternalError` where item identities are exhausted. Returns the new
    /// item's identity.
    pub fn add_item(&mut self, user: u128, list: u128, name: String, amount: Option<String>, now: u64) -> (r:
        Result<i32, Error>)
        requires
            old(self).wf(),
        ensures
            final(self).wf(),
            old(self).access(user, list, true) is Err ==> r is Err && r->Err_0 == old(self).access(
                user,
                list,
                true,
            )->Err_0,
            old(self).access(user, list, true) is Ok && old(self).next_item == i32::MAX ==> r
                == Err::<i32, Error>(Error::InternalError),
            old(self).access(user, list, true) is Ok && old(self).next_item < i32::MAX ==> r == Ok::<
                i32,
                Error,
            >(old(self).next_item),
            r is Err ==> *final(self) == *old(self),
            r is Ok ==> items_changed_only(*old(self), *final(self)),
            r is Ok ==> final(self).items@ == old(self).items@.push(
                ItemRow { list, id: old(self).next_item, name, amount, from_pantry: None },
            ),
            r is Ok ==> final(self).next_item == old(self).next_item + 1,
            r is Ok ==> history_touched(
                old(self).history@,
                final(self).history@,
                list,
                user,
                folded(name@),
                now,
            ),
    {
        let key = fold_name(name.as_str());
        self.add_item_folded(user, list, name, amount, key, now)
    }
}

impl Store {
    /// Replaces the name and/or the amount of item `id` of `list`, each only
    /// where given. Needs write access; `NotFound` where there is no such item.
    pub fn update_item(
        &mut self,
        user: u128,
        list: u128,
        id: i32,
        name: Option<String>,
        amount: Option<String>,
    ) -> (r: Result<(), Error>)
        requires
            old(self).wf(),
        ensures
            final(self).wf(),
            old(self).access(user, list, true) is Err ==> r is Err && r->Err_0 == old(self).access(
                user,
                list,
                true,
            )->Err_0,
            old(self).access(user, list, true) is Ok && !old(self).has_item(list, id) ==> r == Err::<
                (),
                Error,
            >(Error::NotFound),
            old(self).access(user, list, true) is Ok && old(self).has_item(list, id) ==> r is Ok,
            r is Err ==> *final(self) == *old(self),
            r is Ok ==> items_changed_only(*old(self), *final(self)) && final(self).history@ == old(
                self,
            ).history@ && final(self).next_item == old(self).next_item,
            r is Ok ==> final(self).items@ == old(self).items@.update(
                old(self).item_index(list, id),
                updated_item(old(self).items@[old(self).item_index(list, id)], name, amount),
            ),
    {
        match self.require_access(user, list, true) {
            Err(e) => {
                return Err(e);
            },
            Ok(()) => {},
        }
        let k = match self.find_item(list, id) {
            Some(k) => k,
            None => {
                return Err(Error::NotFound);
            },
        };
        let ghost pre = *self;
        match name {
            Some(n) => {
                self.items[k].name = n;
            },
            None => {},
        }
        match amount {
            Some(a) => {
                self.items[k].amount = Some(a);
            },
            None => {},
        }
        proof {
            let post = *self;
            Store::lemma_shares_kept(pre, post);
            Store::lemma_links_kept(pre, post);
            assert(post.items@ =~= pre.items@.update(k as int, updated_item(pre.items@[k as int], name, amount)));
            assert forall|j: int| 0 <= j < post.items@.len() implies post.link_ok(#[trigger] post.items@[j]) by {
                assert(pre.link_ok(pre.items@[j]));
                assert(post.items@[j].list == pre.items@[j].list && post.items@[j].from_pantry
                    == pre.items@[j].from_pantry);
                assert(pre.link_ok(post.items@[j]));
            }
            assert forall|a: int, b: int|
                0 <= a < post.items@.len() && 0 <= b < post.items@.len() && a != b
                    implies (post.items@[a].list, post.items@[a].id) != (post.items@[b].list, post.items@[b].id) by {
                assert((pre.items@[a].list, pre.items@[a].id) != (pre.items@[b].list, pre.items@[b].id));
            }
            assert forall|j: int| 0 <= j < post.items@.len() implies #[trigger] post.items@[j].id < post.next_item by {
                assert(pre.items@[j].id < pre.next_item);
            }
        }
        Ok(())
    }

    /// Deletes item `id` of `list`. Where it restocks a pantry item, that
    /// item's amount first grows by the quantity that the deleted item's
    /// amount reads as (zero where it reads as none). Needs write access;
    /// `NotFound` where there is no such item; `InternalError`, with nothing
    /// changed, where the credit would overflow.
    pub fn delete_item(&mut self, user: u128, list: u128, id: i32) -> (r: Result<(), Error>)
        requires
            old(self).wf(),
        ensures
            final(self).wf(),
            r == old(self).delete_outcome(user, list, id),
            r is Err ==> *final(self) == *old(self),
            r is Ok ==> final(self).lists@ == old(self).lists@ && final(self).shares@ == old(self).shares@
                && final(self).history@ == old(self).history@ && final(self).next_item == old(self).next_item
                && final(self).next_pantry == old(self).next_pantry,
            r is Ok ==> final(self).items@ == old(self).items@.remove(old(self).item_index(list, id)),
            r is Ok ==> final(self).pantry@ == old(self).credited(
                old(self).items@[old(self).item_index(list, id)],
            ),
            r is Ok ==> !final(self).has_item(list, id),
    {
        match self.require_access(user, list, true) {
            Err(e) => {
                return Err(e);
            },
            Ok(()) => {},
        }
        let k = match self.find_item(list, id) {
            Some(k) => k,
            None => {
                return Err(Error::NotFound);
            },
        };
        let ghost pre = *self;
        let ghost row = pre.items@[k as int];
        let target = match self.items[k].from_pantry {
            Some(p) => self.find_pantry(list, p),
            None => None,
        };
        match target {
            Some(q) => {
                let add: u32 = match &self.items[k].amount {
                    Some(a) => parse_quantity(a.as_str()),
                    None => 0,
                };
                if self.pantry[q].amount > u32::MAX - add {
                    return Err(Error::InternalError);
                }
                self.pantry[q].amount = self.pantry[q].amount + add;
            },
            None => {},
        }
        self.items.remove(k);
        proof {
            let post = *self;
            lemma_first_match_range(pre.items@, item_key(list, id));
            assert(row.list == list && row.id == id);
            if target is Some {
                assert(post.pantry@ =~= pre.credited(row));
            } else {
                assert(post.pantry@ =~= pre.credited(row));
            }
            Store::lemma_shares_kept(pre, post);
            Store::lemma_links_kept(pre, post);
            lemma_remove_unique(pre.items@, k as int, |r: ItemRow| (r.list, r.id));
            assert forall|j: int| 0 <= j < post.items@.len() implies post.link_ok(#[trigger] post.items@[j]) by {
                let j2 = if j < k { j } else { j + 1 };
                assert(post.items@[j] == pre.items@[j2]);
                assert(pre.link_ok(pre.items@[j2]));
            }
            assert forall|j: int| 0 <= j < post.items@.len() implies #[trigger] post.items@[j].id < post.next_item by {
                let j2 = if j < k { j } else { j + 1 };
                assert(post.items@[j] == pre.items@[j2]);
                assert(pre.items@[j2].id < pre.next_item);
            }
            assert forall|j: int| 0 <= j < post.items@.len() implies !item_key(list, id)(post.items@[j]) by {
                let j2 = if j < k { j } else { j + 1 };
                assert(post.items@[j] == pre.items@[j2]);
                assert((pre.items@[j2].list, pre.items@[j2].id) != (pre.items@[k as int].list, pre.items@[k as int].id));
            }
            lemma_first_match_none(post.items@, item_key(list, id));
        }
        Ok(())
    }
}

impl Store {
    /// Deletes `list` with its shares, items, pantry and history. Owner
    /// only (`NotAuthorized`).
    pub fn delete_list(&mut self, user: u128, list: u128) -> (r: Result<(), Error>)
        requires
            old(self).wf(),
        ensures
            final(self).wf(),
            r == old(self).ownership(user, list),
            r is Err ==> *final(self) == *old(self),
            r is Ok ==> final(self).lists@ == outside_of(old(self).lists@, list),
            r is Ok ==> final(self).shares@ == outside_of(old(self).shares@, list),
            r is Ok ==> final(self).items@ == outside_of(old(self).items@, list),
            r is Ok ==> final(self).pantry@ == outside_of(old(self).pantry@, list),
            r is Ok ==> final(self).history@ == outside_of(old(self).history@, list),
            r is Ok ==> final(self).next_item == old(self).next_item && final(self).next_pantry == old(
                self,
            ).next_pantry,
    {
        let r = self.require_owner(user, list);
        if r.is_err() {
            return r;
        }
        let ghost pre = *self;
        remove_members(&mut self.shares, list);
        remove_members(&mut self.items, list);
        remove_members(&mut self.pantry, list);
        remove_members(&mut self.history, list);
        remove_members(&mut self.lists, list);
        proof {
            let post = *self;
            lemma_outside_of_unique(pre.lists@, list, |r: ListRow| r.id);
            lemma_outside_of_unique(pre.lists@, list, |r: ListRow| (r.owner, r.name@));
            lemma_outside_of_unique(pre.shares@, list, |r: ShareRow| (r.list, r.user));
            lemma_outside_of_unique(pre.items@, list, |r: ItemRow| (r.list, r.id));
            lemma_outside_of_unique(pre.history@, list, |r: HistoryRow| (r.list, r.creator, r.name@));
            lemma_outside_of_unique(pre.pantry@, list, |r: PantryRow| (r.list, r.id));
            lemma_outside_of_contains(pre.pantry@, list);
            lemma_outside_of_contains(pre.history@, list);
            assert forall|q: int| 0 <= q < post.pantry@.len() implies #[trigger] post.pantry@[q].id < post.next_pantry by {
                assert(post.pantry@.contains(post.pantry@[q]));
                let q2 = choose|q2: int| 0 <= q2 < pre.pantry@.len() && pre.pantry@[q2] == post.pantry@[q];
                assert(pre.pantry@[q2].id < pre.next_pantry);
            }
            lemma_outside_of_contains(pre.lists@, list);
            lemma_outside_of_contains(pre.shares@, list);
            lemma_outside_of_contains(pre.items@, list);
            lemma_outside_of_contains(pre.pantry@, list);
            assert forall|j: int| 0 <= j < post.shares@.len() implies post.share_ok(#[trigger] post.shares@[j]) by {
                let s = post.shares@[j];
                assert(post.shares@.contains(s));
                let j2 = choose|j2: int| 0 <= j2 < pre.shares@.len() && pre.shares@[j2] == s;
                assert(pre.share_ok(pre.shares@[j2]));
                let i = choose|i: int|
                    0 <= i < pre.lists@.len() && #[trigger] pre.lists@[i].id == s.list
                        && pre.lists@[i].owner != s.user;
                assert(pre.lists@.contains(pre.lists@[i]));
                assert(post.lists@.contains(pre.lists@[i]));
                let i2 = choose|i2: int| 0 <= i2 < post.lists@.len() && post.lists@[i2] == pre.lists@[i];
                assert(post.lists@[i2].id == s.list);
            }
            assert forall|x: u128| x != list && pre.has_list(x) implies #[trigger] post.has_list(x) by {
                pre.lemma_has_list_row(x);
                let i = pre.list_index(x);
                assert(post.lists@.contains(pre.lists@[i]));
                let i2 = choose|i2: int| 0 <= i2 < post.lists@.len() && post.lists@[i2] == pre.lists@[i];
                post.lemma_row_has_list(i2);
            }
            assert forall|q: int| 0 <= q < post.pantry@.len() implies post.has_list(#[trigger] post.pantry@[q].list) by {
                assert(post.pantry@.contains(post.pantry@[q]));
                let q2 = choose|q2: int| 0 <= q2 < pre.pantry@.len() && pre.pantry@[q2] == post.pantry@[q];
                assert(pre.has_list(pre.pantry@[q2].list));
            }
            assert forall|h: int| 0 <= h < post.history@.len() implies post.has_list(#[trigger] post.history@[h].list) by {
                assert(post.history@.contains(post.history@[h]));
                let h2 = choose|h2: int| 0 <= h2 < pre.history@.len() && pre.history@[h2] == post.history@[h];
                assert(pre.has_list(pre.history@[h2].list));
            }
            assert forall|k: int| 0 <= k < post.items@.len() implies post.has_list(#[trigger] post.items@[k].list) by {
                assert(post.items@.contains(post.items@[k]));
                let k2 = choose|k2: int| 0 <= k2 < pre.items@.len() && pre.items@[k2] == post.items@[k];
                assert(pre.has_list(pre.items@[k2].list));
            }
            assert forall|k: int| 0 <= k < post.items@.len() implies post.link_ok(#[trigger] post.items@[k]) && post.items@[k].id < post.next_item by {
                let it = post.items@[k];
                assert(post.items@.contains(it));
                let k2 = choose|k2: int| 0 <= k2 < pre.items@.len() && pre.items@[k2] == it;
                assert(pre.link_ok(pre.items@[k2]));
                assert(pre.items@[k2].id < pre.next_item);
                if it.from_pantry is Some {
                    let q = choose|q: int|
                        0 <= q < pre.pantry@.len() && #[trigger] pre.pantry@[q].list == it.list
                            && pre.pantry@[q].id == it.from_pantry->0;
                    assert(pre.pantry@.contains(pre.pantry@[q]));
                    assert(post.pantry@.contains(pre.pantry@[q]));
                    let q2 = choose|q2: int| 0 <= q2 < post.pantry@.len() && post.pantry@[q2] == pre.pantry@[q];
                    assert(post.pantry@[q2].list == it.list);
                }
            }
        }
        Ok(())
    }
}

} // verus!
