//! The store of lists, shares, list items, pantry items and history, with
//! the access rules that guard every operation on it.
use vstd::prelude::*;
use crate::rows::{
    first_match, lemma_first_match_at, lemma_first_match_none, lemma_first_match_range, HistoryRow, ItemRow, ListRow,
    PantryRow, ShareRow,
};
use crate::types::{Error, ListStatus};

verus! {

/// Selects the row of the list with identity `list`.
pub open spec fn list_key(list: u128) -> spec_fn(ListRow) -> bool {
    |r: ListRow| r.id == list
}

/// Selects the row of the share of `list` held by `user`.
pub open spec fn share_key(list: u128, user: u128) -> spec_fn(ShareRow) -> bool {
    |r: ShareRow| r.list == list && r.user == user
}

/// Selects the row of item `id` of `list`.
pub open spec fn item_key(list: u128, id: i32) -> spec_fn(ItemRow) -> bool {
    |r: ItemRow| r.list == list && r.id == id
}

/// Selects the row of pantry item `id` of `list`.
pub open spec fn pantry_key(list: u128, id: i32) -> spec_fn(PantryRow) -> bool {
    |r: PantryRow| r.list == list && r.id == id
}

/// Selects the row of the history entry of `name` used by `creator` in `list`.
pub open spec fn history_key(list: u128, creator: u128, name: Seq<char>) -> spec_fn(HistoryRow) -> bool {
    |r: HistoryRow| r.list == list && r.creator == creator && r.name@ == name
}

/// Every row of the system, held in insertion order.
pub struct Store {
    pub lists: Vec<ListRow>,
    pub shares: Vec<ShareRow>,
    pub items: Vec<ItemRow>,
    pub pantry: Vec<PantryRow>,
    pub history: Vec<HistoryRow>,
    /// The identity that the next list item gets.
    pub next_item: i32,
    /// The identity that the next pantry item gets.
    pub next_pantry: i32,
}

impl Store {
    pub open spec fn list_index(self, list: u128) -> int {
        first_match(self.lists@, list_key(list))
    }

    pub open spec fn has_list(self, list: u128) -> bool {
        self.list_index(list) >= 0
    }

    pub open spec fn list_row(self, list: u128) -> ListRow {
        self.lists@[self.list_index(list)]
    }

    pub open spec fn share_index(self, list: u128, user: u128) -> int {
        first_match(self.shares@, share_key(list, user))
    }

    pub open spec fn item_index(self, list: u128, id: i32) -> int {
        first_match(self.items@, item_key(list, id))
    }

    pub open spec fn has_item(self, list: u128, id: i32) -> bool {
        self.item_index(list, id) >= 0
    }

    pub open spec fn pantry_index(self, list: u128, id: i32) -> int {
        first_match(self.pantry@, pantry_key(list, id))
    }

    pub open spec fn has_pantry(self, list: u128, id: i32) -> bool {
        self.pantry_index(list, id) >= 0
    }

    pub open spec fn history_index(self, list: u128, creator: u128, name: Seq<char>) -> int {
        first_match(self.history@, history_key(list, creator, name))
    }

    /// Whether `user` owns `list`.
    pub open spec fn is_owner(self, user: u128, list: u128) -> bool {
        self.has_list(list) && self.list_row(list).owner == user
    }

    /// How `user` stands towards `list`, if at all.
    pub open spec fn status(self, user: u128, list: u128) -> Option<ListStatus> {
        if !self.has_list(list) {
            None
        } else if self.list_row(list).owner == user {
            Some(ListStatus::Owned)
        } else if self.share_index(list, user) < 0 {
            None
        } else if self.shares@[self.share_index(list, user)].readonly {
            Some(ListStatus::SharedRead)
        } else {
            Some(ListStatus::SharedWrite)
        }
    }

    /// The outcome of asking for read (or, with `write`, write) access.
    pub open spec fn access(self, user: u128, list: u128, write: bool) -> Result<(), Error> {
        if !self.has_list(list) {
            Err(Error::NotFound)
        } else {
            match self.status(user, list) {
                None => Err(Error::NotAuthorized),
                Some(ListStatus::SharedRead) => if write {
                    Err(Error::NotAuthorized)
                } else {
                    Ok(())
                },
                Some(_) => Ok(()),
            }
        }
    }

    /// The outcome of asking for the owner's rights.
    pub open spec fn ownership(self, user: u128, list: u128) -> Result<(), Error> {
        if self.is_owner(user, list) {
            Ok(())
        } else {
            Err(Error::NotAuthorized)
        }
    }

    /// Whether a share belongs to an existing list of another owner.
    pub open spec fn share_ok(self, s: ShareRow) -> bool {
        exists|i: int|
            0 <= i < self.lists@.len() && #[trigger] self.lists@[i].id == s.list
                && self.lists@[i].owner != s.user
    }

    /// Whether a list item's link, if any, leads to a pantry item of its list.
    pub open spec fn link_ok(self, r: ItemRow) -> bool {
        r.from_pantry is Some ==> exists|q: int|
            0 <= q < self.pantry@.len() && #[trigger] self.pantry@[q].list == r.list
                && self.pantry@[q].id == r.from_pantry->0
    }

    /// The invariant of the store: list identities are unique, and so are
    /// an owner's list names and the keys of shares, list items, pantry
    /// items and history entries; a share belongs to an existing list and is
    /// not held by its owner; every pantry link of a list item resolves
    /// within its list; and item and pantry identities stay below the next
    /// ones to be handed out; every list item, pantry item and history
    /// entry belongs to an existing list.
    pub open spec fn wf(self) -> bool {
        &&& forall|a: int, b: int|
            0 <= a < self.lists@.len() && 0 <= b < self.lists@.len() && a != b
                ==> self.lists@[a].id != self.lists@[b].id
        &&& forall|a: int, b: int|
            0 <= a < self.shares@.len() && 0 <= b < self.shares@.len() && a != b
                ==> (self.shares@[a].list, self.shares@[a].user) != (self.shares@[b].list, self.shares@[b].user)
        &&& forall|j: int| 0 <= j < self.shares@.len() ==> self.share_ok(#[trigger] self.shares@[j])
        &&& forall|a: int, b: int|
            0 <= a < self.lists@.len() && 0 <= b < self.lists@.len() && a != b
                ==> (self.lists@[a].owner, self.lists@[a].name@) != (self.lists@[b].owner, self.lists@[b].name@)
        &&& forall|k: int| 0 <= k < self.items@.len() ==> self.link_ok(#[trigger] self.items@[k])
        &&& forall|a: int, b: int|
            0 <= a < self.items@.len() && 0 <= b < self.items@.len() && a != b
                ==> (self.items@[a].list, self.items@[a].id) != (self.items@[b].list, self.items@[b].id)
        &&& forall|k: int| 0 <= k < self.items@.len() ==> #[trigger] self.items@[k].id < self.next_item
        &&& forall|a: int, b: int|
            0 <= a < self.history@.len() && 0 <= b < self.history@.len() && a != b
                ==> (self.history@[a].list, self.history@[a].creator, self.history@[a].name@) != (
                self.history@[b].list,
                self.history@[b].creator,
                self.history@[b].name@,
            )
        &&& forall|a: int, b: int|
            0 <= a < self.pantry@.len() && 0 <= b < self.pantry@.len() && a != b
                ==> (self.pantry@[a].list, self.pantry@[a].id) != (self.pantry@[b].list, self.pantry@[b].id)
        &&& forall|q: int| 0 <= q < self.pantry@.len() ==> #[trigger] self.pantry@[q].id < self.next_pantry
        &&& forall|k: int| 0 <= k < self.items@.len() ==> self.has_list(#[trigger] self.items@[k].list)
        &&& forall|q: int| 0 <= q < self.pantry@.len() ==> self.has_list(#[trigger] self.pantry@[q].list)
        &&& forall|h: int| 0 <= h < self.history@.len() ==> self.has_list(#[trigger] self.history@[h].list)
        &&& self.next_item >= 1
        &&& self.next_pantry >= 1
    }

    /// The list of a stored list row exists.
    pub proof fn lemma_row_has_list(self, i: int)
        requires
            0 <= i < self.lists@.len(),
        ensures
            self.has_list(self.lists@[i].id),
    {
        lemma_first_match_range(self.lists@, list_key(self.lists@[i].id));
    }

    /// An existing list has a row.
    pub proof fn lemma_has_list_row(self, list: u128)
        requires
            self.has_list(list),
        ensures
            0 <= self.list_index(list) < self.lists@.len(),
            self.lists@[self.list_index(list)].id == list,
    {
        lemma_first_match_range(self.lists@, list_key(list));
    }

    /// Lists that existed still exist where every list row was kept.
    pub proof fn lemma_lists_kept(pre: Store, post: Store)
        requires
            forall|i: int| 0 <= i < pre.lists@.len() ==> #[trigger] post.lists@.contains(pre.lists@[i]),
        ensures
            forall|list: u128| pre.has_list(list) ==> #[trigger] post.has_list(list),
    {
        assert forall|list: u128| pre.has_list(list) implies #[trigger] post.has_list(list) by {
            pre.lemma_has_list_row(list);
            let i = pre.list_index(list);
            assert(post.lists@.contains(pre.lists@[i]));
            let j = choose|j: int| 0 <= j < post.lists@.len() && post.lists@[j] == pre.lists@[i];
            post.lemma_row_has_list(j);
        }
    }

    /// Shares stay well placed while the lists and shares are unchanged.
    pub proof fn lemma_shares_kept(pre: Store, post: Store)
        requires
            pre.wf(),
            post.lists@ == pre.lists@,
            post.shares@ == pre.shares@,
        ensures
            forall|j: int| 0 <= j < post.shares@.len() ==> post.share_ok(#[trigger] post.shares@[j]),
    {
        assert forall|j: int| 0 <= j < post.shares@.len() implies post.share_ok(#[trigger] post.shares@[j]) by {
            assert(pre.share_ok(pre.shares@[j]));
            let i = choose|i: int|
                0 <= i < pre.lists@.len() && #[trigger] pre.lists@[i].id == pre.shares@[j].list
                    && pre.lists@[i].owner != pre.shares@[j].user;
            assert(post.lists@[i] == pre.lists@[i]);
        }
    }

    /// Links stay resolved while every pantry row keeps its list and identity.
    pub proof fn lemma_links_kept(pre: Store, post: Store)
        requires
            post.pantry@.len() == pre.pantry@.len(),
            forall|q: int| 0 <= q < pre.pantry@.len() ==> #[trigger] post.pantry@[q].list == pre.pantry@[q].list
                && post.pantry@[q].id == pre.pantry@[q].id,
        ensures
            forall|r: ItemRow| pre.link_ok(r) ==> #[trigger] post.link_ok(r),
    {
        assert forall|r: ItemRow| pre.link_ok(r) implies #[trigger] post.link_ok(r) by {
            if r.from_pantry is Some {
                let q = choose|q: int|
                    0 <= q < pre.pantry@.len() && #[trigger] pre.pantry@[q].list == r.list
                        && pre.pantry@[q].id == r.from_pantry->0;
                assert(post.pantry@[q].list == r.list);
            }
        }
    }

    /// An empty store.
    pub fn new() -> (r: Store)
        ensures
            r.wf(),
            r.lists@.len() == 0,
            r.shares@.len() == 0,
            r.items@.len() == 0,
            r.pantry@.len() == 0,
            r.history@.len() == 0,
            r.next_item == 1,
            r.next_pantry == 1,
    {
        Store {
            lists: Vec::new(),
            shares: Vec::new(),
            items: Vec::new(),
            pantry: Vec::new(),
            history: Vec::new(),
            next_item: 1,
            next_pantry: 1,
        }
    }

    /// The index of the first row of the list `list`, if any.
    pub fn find_list(&self, list: u128) -> (r: Option<usize>)
        ensures
            r is Some <==> self.has_list(list),
            r is Some ==> r->0 == self.list_index(list) && r->0 < self.lists@.len(),
    {
        let mut i: usize = 0;
        while i < self.lists.len()
            invariant
                0 <= i <= self.lists@.len(),
                forall|j: int| 0 <= j < i ==> !list_key(list)(self.lists@[j]),
            decreases self.lists@.len() - i,
        {
            if self.lists[i].id == list {
                proof {
                    lemma_first_match_at(self.lists@, list_key(list), i as int);
                }
                return Some(i);
            }
            i = i + 1;
        }
        proof {
            lemma_first_match_none(self.lists@, list_key(list));
        }
        None
    }

    /// The index of the first row of the share of `list` held by `user`, if any.
    pub fn find_share(&self, list: u128, user: u128) -> (r: Option<usize>)
        ensures
            r is Some <==> self.share_index(list, user) >= 0,
            r is Some ==> r->0 == self.share_index(list, user) && r->0 < self.shares@.len(),
    {
        let mut i: usize = 0;
        while i < self.shares.len()
            invariant
                0 <= i <= self.shares@.len(),
                forall|j: int| 0 <= j < i ==> !share_key(list, user)(self.shares@[j]),
            decreases self.shares@.len() - i,
        {
            if self.shares[i].list == list && self.shares[i].user == user {
                proof {
                    lemma_first_match_at(self.shares@, share_key(list, user), i as int);
                }
                return Some(i);
            }
            i = i + 1;
        }
        proof {
            lemma_first_match_none(self.shares@, share_key(list, user));
        }
        None
    }

    /// The index of the first row of item `id` of `list`, if any.
    pub fn find_item(&self, list: u128, id: i32) -> (r: Option<usize>)
        ensures
            r is Some <==> self.has_item(list, id),
            r is Some ==> r->0 == self.item_index(list, id) && r->0 < self.items@.len(),
    {
        let mut i: usize = 0;
        while i < self.items.len()
            invariant
                0 <= i <= self.items@.len(),
                forall|j: int| 0 <= j < i ==> !item_key(list, id)(self.items@[j]),
            decreases self.items@.len() - i,
        {
            if self.items[i].list == list && self.items[i].id == id {
                proof {
                    lemma_first_match_at(self.items@, item_key(list, id), i as int);
                }
                return Some(i);
            }
            i = i + 1;
        }
        proof {
            lemma_first_match_none(self.items@, item_key(list, id));
        }
        None
    }

    /// The index of the first row of pantry item `id` of `list`, if any.
    pub fn find_pantry(&self, list: u128, id: i32) -> (r: Option<usize>)
        ensures
            r is Some <==> self.has_pantry(list, id),
            r is Some ==> r->0 == self.pantry_index(list, id) && r->0 < self.pantry@.len(),
    {
        let mut i: usize = 0;
        while i < self.pantry.len()
            invariant
                0 <= i <= self.pantry@.len(),
                forall|j: int| 0 <= j < i ==> !pantry_key(list, id)(self.pantry@[j]),
            decreases self.pantry@.len() - i,
        {
            if self.pantry[i].list == list && self.pantry[i].id == id {
                proof {
                    lemma_first_match_at(self.pantry@, pantry_key(list, id), i as int);
                }
                return Some(i);
            }
            i = i + 1;
        }
        proof {
            lemma_first_match_none(self.pantry@, pantry_key(list, id));
        }
        None
    }

    /// The index of the first row of the history entry of `name` used by `creator` in `list`, if any.
    pub fn find_history(&self, list: u128, creator: u128, name: &String) -> (r: Option<usize>)
        ensures
            r is Some <==> self.history_index(list, creator, name@) >= 0,
            r is Some ==> r->0 == self.history_index(list, creator, name@) && r->0 < self.history@.len(),
    {
        let mut i: usize = 0;
        while i < self.history.len()
            invariant
                0 <= i <= self.history@.len(),
                forall|j: int| 0 <= j < i ==> !history_key(list, creator, name@)(self.history@[j]),
            decreases self.history@.len() - i,
        {
            if self.history[i].list == list && self.history[i].creator == creator
                && self.history[i].name == *name {
                proof {
                    lemma_first_match_at(self.history@, history_key(list, creator, name@), i as int);
                }
                return Some(i);
            }
            i = i + 1;
        }
        proof {
            lemma_first_match_none(self.history@, history_key(list, creator, name@));
        }
        None
    }

    /// How `user` stands towards `list`; `None` where the list does not
    /// exist or the user has no access to it.
    pub fn resolve(&self, user: u128, list: u128) -> (r: Option<ListStatus>)
        ensures
            r == self.status(user, list),
    {
        match self.find_list(list) {
            None => None,
            Some(i) => {
                if self.lists[i].owner == user {
                    Some(ListStatus::Owned)
                } else {
                    match self.find_share(list, user) {
                        None => None,
                        Some(j) => if self.shares[j].readonly {
                            Some(ListStatus::SharedRead)
                        } else {
                            Some(ListStatus::SharedWrite)
                        },
                    }
                }
            },
        }
    }

    /// Checks that `user` may read `list`, or also write it where `write`
    /// is set: `NotFound` where the list does not exist, `NotAuthorized`
    /// where the user is neither its owner nor holds a share that suffices.
    pub fn require_access(&self, user: u128, list: u128, write: bool) -> (r: Result<(), Error>)
        ensures
            r == self.access(user, list, write),
    {
        if self.find_list(list).is_none() {
            return Err(Error::NotFound);
        }
        match self.resolve(user, list) {
            None => Err(Error::NotAuthorized),
            Some(ListStatus::SharedRead) => if write {
                Err(Error::NotAuthorized)
            } else {
                Ok(())
            },
            Some(_) => Ok(()),
        }
    }

    /// Checks that `user` owns `list`; `NotAuthorized` otherwise.
    pub fn require_owner(&self, user: u128, list: u128) -> (r: Result<(), Error>)
        ensures
            r == self.ownership(user, list),
    {
        match self.find_list(list) {
            Some(i) => if self.lists[i].owner == user {
                Ok(())
            } else {
                Err(Error::NotAuthorized)
            },
            None => Err(Error::NotAuthorized),
        }
    }
}

} // verus!
