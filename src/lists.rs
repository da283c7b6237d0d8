//! Operations on lists: creation, overview, public flag, sharing, reading.
use vstd::prelude::*;
use crate::platform::new_list_id;
use crate::rows::{
    lemma_first_match_none, lemma_first_match_range, lemma_remove_unique, ItemRow, ListRow,
    ShareRow,
};
use crate::store::{list_key, share_key, Store};
use crate::types::{Error, Item, ListInfo, ListStatus};

verus! {

/// Whether `post` is `pre` with one more list, and nothing else changed.
pub open spec fn list_created(pre: Store, post: Store, owner: u128, name: String, id: u128) -> bool {
    &&& post.lists@ == pre.lists@.push(ListRow { id, owner, name, public: false })
    &&& post.shares@ == pre.shares@
    &&& post.items@ == pre.items@
    &&& post.pantry@ == pre.pantry@
    &&& post.history@ == pre.history@
    &&& post.next_item == pre.next_item
    &&& post.next_pantry == pre.next_pantry
}

/// Whether no share, list item, pantry item or history entry of `s`
/// belongs to `list`.
pub open spec fn list_is_empty(s: Store, list: u128) -> bool {
    &&& forall|k: int| 0 <= k < s.shares@.len() ==> #[trigger] s.shares@[k].list != list
    &&& forall|k: int| 0 <= k < s.items@.len() ==> #[trigger] s.items@[k].list != list
    &&& forall|k: int| 0 <= k < s.pantry@.len() ==> #[trigger] s.pantry@[k].list != list
    &&& forall|k: int| 0 <= k < s.history@.len() ==> #[trigger] s.history@[k].list != list
}

/// Whether `post` is `pre` with only the lists changed.
pub open spec fn only_lists_changed(pre: Store, post: Store) -> bool {
    &&& post.shares@ == pre.shares@
    &&& post.items@ == pre.items@
    &&& post.pantry@ == pre.pantry@
    &&& post.history@ == pre.history@
    &&& post.next_item == pre.next_item
    &&& post.next_pantry == pre.next_pantry
}

/// A list as shown to a user who stands towards it with `status`.
pub open spec fn info_of(row: ListRow, status: ListStatus) -> ListInfo {
    ListInfo { id: row.id, name: row.name, status, public: row.public, owner: row.owner }
}

/// The lists of `s` that `user` owns, in order.
pub open spec fn owned_infos(s: Seq<ListRow>, user: u128) -> Seq<ListInfo>
    decreases s.len(),
{
    if s.len() == 0 {
        Seq::empty()
    } else {
        let rest = owned_infos(s.drop_last(), user);
        if s.last().owner == user {
            rest.push(info_of(s.last(), ListStatus::Owned))
        } else {
            rest
        }
    }
}

/// The status that a share grants.
pub open spec fn share_status(s: ShareRow) -> ListStatus {
    if s.readonly {
        ListStatus::SharedRead
    } else {
        ListStatus::SharedWrite
    }
}

/// A list item as a reader sees it.
pub open spec fn item_view(r: ItemRow) -> Item {
    Item { id: r.id, name: r.name, amount: r.amount }
}

/// The items of `list` among `s`, in order.
pub open spec fn items_in(s: Seq<ItemRow>, list: u128) -> Seq<Item>
    decreases s.len(),
{
    if s.len() == 0 {
        Seq::empty()
    } else {
        let rest = items_in(s.drop_last(), list);
        if s.last().list == list {
            rest.push(item_view(s.last()))
        } else {
            rest
        }
    }
}

fn clone_amount(a: &Option<String>) -> (r: Option<String>)
    ensures
        r == *a,
{
    match a {
        Some(t) => Some(t.clone()),
        None => None,
    }
}

impl Store {
    /// The lists that `s` shares with `user`, in order of the shares.
    pub open spec fn shared_infos(self, s: Seq<ShareRow>, user: u128) -> Seq<ListInfo>
        decreases s.len(),
    {
        if s.len() == 0 {
            Seq::empty()
        } else {
            let rest = self.shared_infos(s.drop_last(), user);
            if s.last().user == user && self.has_list(s.last().list) {
                rest.push(info_of(self.list_row(s.last().list), share_status(s.last())))
            } else {
                rest
            }
        }
    }

    /// The lists that `user` can see: owned ones first, then shared ones.
    pub open spec fn visible_lists(self, user: u128) -> Seq<ListInfo> {
        owned_infos(self.lists@, user) + self.shared_infos(self.shares@, user)
    }

    /// The lists that `user` owns, then those shared with them, each with
    /// its status and public flag.
    pub fn list_lists(&self, user: u128) -> (r: Vec<ListInfo>)
        ensures
            r@ == self.visible_lists(user),
    {
        let mut out: Vec<ListInfo> = Vec::new();
        let mut i: usize = 0;
        while i < self.lists.len()
            invariant
                0 <= i <= self.lists@.len(),
                out@ == owned_infos(self.lists@.subrange(0, i as int), user),
            decreases self.lists@.len() - i,
        {
            proof {
                assert(self.lists@.subrange(0, i + 1).drop_last() =~= self.lists@.subrange(0, i as int));
            }
            let row = &self.lists[i];
            if row.owner == user {
                out.push(
                    ListInfo {
                        id: row.id,
                        name: row.name.clone(),
                        status: ListStatus::Owned,
                        public: row.public,
                        owner: row.owner,
                    },
                );
            }
            i = i + 1;
        }
        proof {
            assert(self.lists@.subrange(0, i as int) =~= self.lists@);
        }
        let ghost owned = out@;
        let mut j: usize = 0;
        while j < self.shares.len()
            invariant
                0 <= j <= self.shares@.len(),
                owned == owned_infos(self.lists@, user),
                out@ == owned + self.shared_infos(self.shares@.subrange(0, j as int), user),
            decreases self.shares@.len() - j,
        {
            proof {
                assert(self.shares@.subrange(0, j + 1).drop_last() =~= self.shares@.subrange(0, j as int));
            }
            let share = &self.shares[j];
            if share.user == user {
                match self.find_list(share.list) {
                    Some(k) => {
                        let row = &self.lists[k];
                        let status = if share.readonly {
                            ListStatus::SharedRead
                        } else {
                            ListStatus::SharedWrite
                        };
                        out.push(
                            ListInfo {
                                id: row.id,
                                name: row.name.clone(),
                                status,
                                public: row.public,
                                owner: row.owner,
                            },
                        );
                        proof {
                            lemma_first_match_range(self.lists@, list_key(share.list));
                        }
                    },
                    None => {},
                }
            }
            proof {
                assert(out@ =~= owned + self.shared_infos(self.shares@.subrange(0, j + 1), user));
            }
            j = j + 1;
        }
        proof {
            assert(self.shares@.subrange(0, j as int) =~= self.shares@);
        }
        out
    }

    fn collect_items(&self, list: u128) -> (r: Vec<Item>)
        ensures
            r@ == items_in(self.items@, list),
    {
        let mut out: Vec<Item> = Vec::new();
        let mut i: usize = 0;
        while i < self.items.len()
            invariant
                0 <= i <= self.items@.len(),
                out@ == items_in(self.items@.subrange(0, i as int), list),
            decreases self.items@.len() - i,
        {
            proof {
                assert(self.items@.subrange(0, i + 1).drop_last() =~= self.items@.subrange(0, i as int));
            }
            let row = &self.items[i];
            if row.list == list {
                out.push(Item { id: row.id, name: row.name.clone(), amount: clone_amount(&row.amount) });
            }
            i = i + 1;
        }
        proof {
            assert(self.items@.subrange(0, i as int) =~= self.items@);
        }
        out
    }

    /// The items of `list`, with whether the caller's access is read-only.
    /// Needs read access: `NotFound` where the list does not exist,
    /// `NotAuthorized` where the caller may not read it.
    pub fn read_list(&self, user: u128, list: u128) -> (r: Result<(Vec<Item>, bool), Error>)
        ensures
            self.access(user, list, false) is Err <==> r is Err,
            r is Err ==> r->Err_0 == self.access(user, list, false)->Err_0,
            r is Ok ==> r->Ok_0.0@ == items_in(self.items@, list)
                && r->Ok_0.1 == (self.status(user, list) == Some(ListStatus::SharedRead)),
    {
        match self.require_access(user, list, false) {
            Err(e) => Err(e),
            Ok(()) => {
                let readonly = match self.resolve(user, list) {
                    Some(ListStatus::SharedRead) => true,
                    _ => false,
                };
                Ok((self.collect_items(list), readonly))
            },
        }
    }

    /// The items of a public list, for anyone. `NotFound` where the list
    /// does not exist or is not public, so that the two cannot be told apart.
    pub fn get_public_list(&self, list: u128) -> (r: Result<Vec<Item>, Error>)
        ensures
            r is Ok <==> self.has_list(list) && self.list_row(list).public,
            r is Err ==> r == Err::<Vec<Item>, Error>(Error::NotFound),
            r is Ok ==> r->Ok_0@ == items_in(self.items@, list),
    {
        match self.find_list(list) {
            Some(i) => if self.lists[i].public {
                Ok(self.collect_items(list))
            } else {
                Err(Error::NotFound)
            },
            None => Err(Error::NotFound),
        }
    }

    /// Grants `user` access to `list`, read-only where `readonly` is set, or
    /// changes the grant that `user` holds. Owner only (`NotAuthorized`);
    /// `InvalidInput` where `user` is the owner.
    pub fn share_list(&mut self, owner: u128, list: u128, user: u128, readonly: bool) -> (r: Result<(), Error>)
        requires
            old(self).wf(),
        ensures
            final(self).wf(),
            old(self).ownership(owner, list) is Err ==> r == old(self).ownership(owner, list),
            old(self).ownership(owner, list) is Ok && owner == user ==> r == Err::<(), Error>(Error::InvalidInput),
            old(self).ownership(owner, list) is Ok && owner != user ==> r is Ok,
            r is Err ==> *final(self) == *old(self),
            r is Ok ==> final(self).lists@ == old(self).lists@ && final(self).items@ == old(self).items@
                && final(self).pantry@ == old(self).pantry@ && final(self).history@ == old(self).history@
                && final(self).next_item == old(self).next_item && final(self).next_pantry == old(self).next_pantry,
            r is Ok ==> (if old(self).share_index(list, user) >= 0 {
                final(self).shares@ == old(self).shares@.update(
                    old(self).share_index(list, user),
                    ShareRow { list, user, readonly },
                )
            } else {
                final(self).shares@ == old(self).shares@.push(ShareRow { list, user, readonly })
            }),
    {
        let r = self.require_owner(owner, list);
        if r.is_err() {
            return r;
        }
        if owner == user {
            return Err(Error::InvalidInput);
        }
        let ghost pre = *self;
        proof {
            lemma_first_match_range(pre.shares@, share_key(list, user));
            lemma_first_match_range(pre.lists@, list_key(list));
        }
        let li: usize = self.find_list(list).unwrap();
        match self.find_share(list, user) {
            Some(j) => {
                self.shares.set(j, ShareRow { list, user, readonly });
            },
            None => {
                self.shares.push(ShareRow { list, user, readonly });
            },
        }
        proof {
            let post = *self;
            assert forall|j: int| 0 <= j < post.shares@.len() implies post.share_ok(#[trigger] post.shares@[j]) by {
                if j < pre.shares@.len() && post.shares@[j] == pre.shares@[j] {
                    assert(pre.share_ok(pre.shares@[j]));
                    let i = choose|i: int|
                        0 <= i < pre.lists@.len() && #[trigger] pre.lists@[i].id == pre.shares@[j].list
                            && pre.lists@[i].owner != pre.shares@[j].user;
                    assert(post.lists@[i] == pre.lists@[i]);
                } else {
                    assert(post.shares@[j] == ShareRow { list, user, readonly });
                    assert(post.lists@[li as int].id == list);
                    assert(post.lists@[li as int].owner == owner);
                    assert(post.lists@[li as int].owner != post.shares@[j].user);
                }
            }
            assert forall|a: int, b: int|
                0 <= a < post.shares@.len() && 0 <= b < post.shares@.len() && a != b
                    implies (post.shares@[a].list, post.shares@[a].user) != (post.shares@[b].list, post.shares@[b].user) by {
                if a < pre.shares@.len() && b < pre.shares@.len() && post.shares@[a] == pre.shares@[a]
                    && post.shares@[b] == pre.shares@[b] {
                    assert((pre.shares@[a].list, pre.shares@[a].user) != (pre.shares@[b].list, pre.shares@[b].user));
                }
            }
        }
        Ok(())
    }

    /// Withdraws the access that `user` holds to `list`. Owner only
    /// (`NotAuthorized`); `NotFound` where `user` holds no share of it.
    pub fn delete_share(&mut self, owner: u128, list: u128, user: u128) -> (r: Result<(), Error>)
        requires
            old(self).wf(),
        ensures
            final(self).wf(),
            old(self).ownership(owner, list) is Err ==> r == old(self).ownership(owner, list),
            old(self).ownership(owner, list) is Ok && old(self).share_index(list, user) < 0 ==> r == Err::<
                (),
                Error,
            >(Error::NotFound),
            old(self).ownership(owner, list) is Ok && old(self).share_index(list, user) >= 0 ==> r is Ok,
            r is Err ==> *final(self) == *old(self),
            r is Ok ==> final(self).lists@ == old(self).lists@ && final(self).items@ == old(self).items@
                && final(self).pantry@ == old(self).pantry@ && final(self).history@ == old(self).history@
                && final(self).next_item == old(self).next_item && final(self).next_pantry == old(self).next_pantry,
            r is Ok ==> final(self).shares@ == old(self).shares@.remove(old(self).share_index(list, user)),
            r is Ok ==> final(self).status(user, list) == None::<ListStatus>,
    {
        let r = self.require_owner(owner, list);
        if r.is_err() {
            return r;
        }
        let k = match self.find_share(list, user) {
            Some(k) => k,
            None => {
                return Err(Error::NotFound);
            },
        };
        let ghost pre = *self;
        self.shares.remove(k);
        proof {
            let post = *self;
            lemma_first_match_range(pre.shares@, share_key(list, user));
            lemma_remove_unique(pre.shares@, k as int, |r: ShareRow| (r.list, r.user));
            assert forall|j: int| 0 <= j < post.shares@.len() implies post.share_ok(#[trigger] post.shares@[j]) by {
                let j2 = if j < k { j } else { j + 1 };
                assert(post.shares@[j] == pre.shares@[j2]);
                assert(pre.share_ok(pre.shares@[j2]));
                let i = choose|i: int|
                    0 <= i < pre.lists@.len() && #[trigger] pre.lists@[i].id == pre.shares@[j2].list
                        && pre.lists@[i].owner != pre.shares@[j2].user;
                assert(post.lists@[i] == pre.lists@[i]);
            }
            assert forall|j: int| 0 <= j < post.shares@.len() implies !share_key(list, user)(post.shares@[j]) by {
                let j2 = if j < k { j } else { j + 1 };
                assert(post.shares@[j] == pre.shares@[j2]);
                assert((pre.shares@[j2].list, pre.shares@[j2].user) != (pre.shares@[k as int].list, pre.shares@[k as int].user));
            }
            lemma_first_match_none(post.shares@, share_key(list, user));
        }
        Ok(())
    }

    /// Whether `owner` already has a list called `name`.
    pub open spec fn owns_name(self, owner: u128, name: Seq<char>) -> bool {
        exists|i: int| 0 <= i < self.lists@.len() && #[trigger] self.lists@[i].owner == owner
            && self.lists@[i].name@ == name
    }

    fn has_name(&self, owner: u128, name: &String) -> (r: bool)
        ensures
            r == self.owns_name(owner, name@),
    {
        let mut i: usize = 0;
        while i < self.lists.len()
            invariant
                0 <= i <= self.lists@.len(),
                forall|j: int| 0 <= j < i ==> !(self.lists@[j].owner == owner && self.lists@[j].name@ == name@),
            decreases self.lists@.len() - i,
        {
            if self.lists[i].owner == owner && self.lists[i].name == *name {
                return true;
            }
            i = i + 1;
        }
        false
    }

    /// Creates a list named `name` for `owner` under the identity `id`.
    /// `AlreadyExists` where the owner has a list of that name already;
    /// `InternalError` where `id` is taken.
    pub fn create_list_with_id(&mut self, owner: u128, name: String, id: u128) -> (r: Result<u128, Error>)
        requires
            old(self).wf(),
        ensures
            final(self).wf(),
            old(self).owns_name(owner, name@) ==> r == Err::<u128, Error>(Error::AlreadyExists),
            !old(self).owns_name(owner, name@) && old(self).has_list(id) ==> r == Err::<u128, Error>(
                Error::InternalError,
            ),
            !old(self).owns_name(owner, name@) && !old(self).has_list(id) ==> r == Ok::<u128, Error>(id),
            r is Ok ==> list_created(*old(self), *final(self), owner, name, id),
            r is Ok ==> list_is_empty(*final(self), id),
            r is Err ==> *final(self) == *old(self),
    {
        if self.has_name(owner, &name) {
            return Err(Error::AlreadyExists);
        }
        if self.find_list(id).is_some() {
            return Err(Error::InternalError);
        }
        let ghost pre = *self;
        proof {
            lemma_first_match_range(pre.lists@, list_key(id));
        }
        self.lists.push(ListRow { id, owner, name, public: false });
        proof {
            let post = *self;
            assert forall|i: int| 0 <= i < pre.lists@.len() implies #[trigger] post.lists@.contains(pre.lists@[i]) by {
                assert(post.lists@[i] == pre.lists@[i]);
            }
            Store::lemma_lists_kept(pre, post);
            assert forall|k: int| 0 <= k < post.shares@.len() implies #[trigger] post.shares@[k].list != id by {
                assert(pre.share_ok(pre.shares@[k]));
                let i = choose|i: int|
                    0 <= i < pre.lists@.len() && #[trigger] pre.lists@[i].id == pre.shares@[k].list
                        && pre.lists@[i].owner != pre.shares@[k].user;
                pre.lemma_row_has_list(i);
            }
            assert forall|j: int| 0 <= j < post.shares@.len() implies post.share_ok(#[trigger] post.shares@[j]) by {
                assert(pre.share_ok(pre.shares@[j]));
                let i = choose|i: int|
                    0 <= i < pre.lists@.len() && #[trigger] pre.lists@[i].id == pre.shares@[j].list
                        && pre.lists@[i].owner != pre.shares@[j].user;
                assert(post.lists@[i] == pre.lists@[i]);
            }
            assert forall|a: int, b: int|
                0 <= a < post.lists@.len() && 0 <= b < post.lists@.len() && a != b
                    implies (post.lists@[a].owner, post.lists@[a].name@) != (post.lists@[b].owner, post.lists@[b].name@) by {
                if a == pre.lists@.len() as int {
                    assert(!(pre.lists@[b].owner == owner && pre.lists@[b].name@ == name@));
                } else if b == pre.lists@.len() as int {
                    assert(!(pre.lists@[a].owner == owner && pre.lists@[a].name@ == name@));
                }
            }
        }
        Ok(id)
    }

    /// Creates a list named `name` for `owner` under a fresh random identity.
    /// `AlreadyExists` where the owner has a list of that name already.
    pub fn create_list(&mut self, owner: u128, name: String) -> (r: Result<u128, Error>)
        requires
            old(self).wf(),
        ensures
            final(self).wf(),
            old(self).owns_name(owner, name@) <==> r == Err::<u128, Error>(Error::AlreadyExists),
            r is Ok ==> !old(self).has_list(r->Ok_0) && list_created(*old(self), *final(self), owner, name, r->Ok_0),
            r is Ok ==> list_is_empty(*final(self), r->Ok_0),
            r == Err::<u128, Error>(Error::InternalError) ==> old(self).lists@.len() > 0,
            r is Err ==> *final(self) == *old(self),
            r is Err ==> r == Err::<u128, Error>(Error::AlreadyExists) || r == Err::<u128, Error>(
                Error::InternalError,
            ),
    {
        let id = new_list_id();
        proof {
            lemma_first_match_range(self.lists@, list_key(id));
        }
        self.create_list_with_id(owner, name, id)
    }

    fn set_flag(&mut self, user: u128, list: u128, public: bool) -> (r: Result<(), Error>)
        requires
            old(self).wf(),
        ensures
            final(self).wf(),
            r == old(self).ownership(user, list),
            r is Err ==> *final(self) == *old(self),
            r is Ok ==> only_lists_changed(*old(self), *final(self)) && final(self).lists@ == old(
                self,
            ).lists@.update(
                old(self).list_index(list),
                ListRow { public, ..old(self).list_row(list) },
            ),
    {
        let r = self.require_owner(user, list);
        if r.is_err() {
            return r;
        }
        let i = self.find_list(list).unwrap();
        let ghost pre = *self;
        self.lists[i].public = public;
        proof {
            let post = *self;
            assert(post.lists@ =~= pre.lists@.update(i as int, ListRow { public, ..pre.lists@[i as int] }));
            assert forall|x: u128| pre.has_list(x) implies #[trigger] post.has_list(x) by {
                pre.lemma_has_list_row(x);
                post.lemma_row_has_list(pre.list_index(x));
            }
            assert forall|j: int| 0 <= j < post.shares@.len() implies post.share_ok(#[trigger] post.shares@[j]) by {
                assert(pre.share_ok(pre.shares@[j]));
                let k = choose|k: int|
                    0 <= k < pre.lists@.len() && #[trigger] pre.lists@[k].id == pre.shares@[j].list
                        && pre.lists@[k].owner != pre.shares@[j].user;
                assert(post.lists@[k].id == pre.lists@[k].id && post.lists@[k].owner == pre.lists@[k].owner);
            }
            assert forall|a: int, b: int|
                0 <= a < post.lists@.len() && 0 <= b < post.lists@.len() && a != b
                    implies (post.lists@[a].owner, post.lists@[a].name@) != (post.lists@[b].owner, post.lists@[b].name@) by {
                assert((pre.lists@[a].owner, pre.lists@[a].name@) != (pre.lists@[b].owner, pre.lists@[b].name@));
            }
        }
        Ok(())
    }

    /// Makes `list` readable by anyone; owner only (`NotAuthorized`).
    pub fn set_public(&mut self, user: u128, list: u128) -> (r: Result<(), Error>)
        requires
            old(self).wf(),
        ensures
            final(self).wf(),
            r == old(self).ownership(user, list),
            r is Err ==> *final(self) == *old(self),
            r is Ok ==> only_lists_changed(*old(self), *final(self)) && final(self).lists@ == old(
                self,
            ).lists@.update(
                old(self).list_index(list),
                ListRow { public: true, ..old(self).list_row(list) },
            ),
    {
        self.set_flag(user, list, true)
    }

    /// Withdraws public reading of `list`; owner only (`NotAuthorized`).
    pub fn remove_public(&mut self, user: u128, list: u128) -> (r: Result<(), Error>)
        requires
            old(self).wf(),
        ensures
            final(self).wf(),
            r == old(self).ownership(user, list),
            r is Err ==> *final(self) == *old(self),
            r is Ok ==> only_lists_changed(*old(self), *final(self)) && final(self).lists@ == old(
                self,
            ).lists@.update(
                old(self).list_index(list),
                ListRow { public: false, ..old(self).list_row(list) },
            ),
    {
        self.set_flag(user, list, false)
    }
}

} // verus!
