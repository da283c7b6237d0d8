//! Operations on a list's pantry, and the refill that turns its shortfalls
//! into list items.
use vstd::prelude::*;
use crate::quantity::{decimal_of, render_quantity};
use crate::rows::{
    lemma_first_match_range, lemma_outside_of_contains, lemma_outside_of_unique,
    outside_of, remove_members, ItemRow, PantryRow,
};
use crate::store::{pantry_key, Store};
use crate::types::{Error, PantryItem};

verus! {

/// A pantry item as a reader sees it.
pub open spec fn pantry_view(r: PantryRow) -> PantryItem {
    PantryItem { id: r.id, name: r.name, amount: r.amount, target: r.target }
}

/// The pantry items of `list` among `s`, in order.
pub open spec fn pantry_in(s: Seq<PantryRow>, list: u128) -> Seq<PantryItem>
    decreases s.len(),
{
    if s.len() == 0 {
        Seq::empty()
    } else {
        let rest = pantry_in(s.drop_last(), list);
        if s.last().list == list {
            rest.push(pantry_view(s.last()))
        } else {
            rest
        }
    }
}

/// Whether a pantry row holds less than its target.
pub open spec fn is_short(r: PantryRow) -> bool {
    r.target is Some && r.amount < r.target->0
}

/// The pantry rows of `list` among `s` that hold less than their target.
pub open spec fn shortfalls(s: Seq<PantryRow>, list: u128) -> Seq<PantryRow>
    decreases s.len(),
{
    if s.len() == 0 {
        Seq::empty()
    } else {
        let rest = shortfalls(s.drop_last(), list);
        if s.last().list == list && is_short(s.last()) {
            rest.push(s.last())
        } else {
            rest
        }
    }
}

/// Whether `r` is the list item, with identity `id`, that refill makes for
/// pantry row `p`: same list and name, the missing quantity as its amount,
/// linked back to `p`.
pub open spec fn refill_item(r: ItemRow, p: PantryRow, id: int) -> bool {
    &&& r.list == p.list
    &&& r.id == id
    &&& r.name == p.name
    &&& r.amount is Some
    &&& r.amount->0@ == decimal_of((p.target->0 - p.amount) as nat)
    &&& r.from_pantry == Some(p.id)
}

/// Whether `post` is `pre` after a refill of `list`: after the old list
/// items come, in pantry order, one new item for each pantry item of the
/// list that holds less than its target, with fresh identities; nothing
/// else changed.
pub open spec fn refilled(pre: Store, post: Store, list: u128) -> bool {
    let sf = shortfalls(pre.pantry@, list);
    let n = pre.items@.len();
    &&& post.items@.len() == n + sf.len()
    &&& post.items@.subrange(0, n as int) == pre.items@
    &&& forall|k: int|
        n <= k < post.items@.len() ==> refill_item(#[trigger] post.items@[k], sf[k - n], pre.next_item + k - n)
    &&& post.next_item == pre.next_item + sf.len()
    &&& post.lists@ == pre.lists@
    &&& post.shares@ == pre.shares@
    &&& post.pantry@ == pre.pantry@
    &&& post.history@ == pre.history@
    &&& post.next_pantry == pre.next_pantry
}

/// A pantry item after an edit: amount and target replaced where given.
pub open spec fn edited_pantry(r: PantryRow, amount: Option<u32>, target: Option<u32>) -> PantryRow {
    PantryRow {
        amount: match amount {
            Some(a) => a,
            None => r.amount,
        },
        target: match target {
            Some(t) => Some(t),
            None => r.target,
        },
        ..r
    }
}

proof fn lemma_shortfalls_prefix(s: Seq<PantryRow>, list: u128, i: int)
    requires
        0 <= i <= s.len(),
    ensures
        shortfalls(s.subrange(0, i), list).len() <= shortfalls(s, list).len(),
    decreases s.len() - i,
{
    if i < s.len() {
        lemma_shortfalls_prefix(s, list, i + 1);
        assert(s.subrange(0, i + 1).drop_last() =~= s.subrange(0, i));
    } else {
        assert(s.subrange(0, i) =~= s);
    }
}

/// The shortfalls are pantry rows of the list that hold less than their
/// target, and every such row is among them.
pub proof fn lemma_shortfalls_members(s: Seq<PantryRow>, list: u128)
    ensures
        forall|j: int| 0 <= j < shortfalls(s, list).len() ==> s.contains(#[trigger] shortfalls(s, list)[j])
            && shortfalls(s, list)[j].list == list && is_short(shortfalls(s, list)[j]),
        forall|q: int| 0 <= q < s.len() && #[trigger] s[q].list == list && is_short(s[q]) ==> shortfalls(
            s,
            list,
        ).contains(s[q]),
    decreases s.len(),
{
    if s.len() > 0 {
        let d = s.drop_last();
        lemma_shortfalls_members(d, list);
        let sf = shortfalls(s, list);
        let sd = shortfalls(d, list);
        assert forall|j: int| 0 <= j < sf.len() implies s.contains(#[trigger] sf[j]) && sf[j].list == list
            && is_short(sf[j]) by {
            if j < sd.len() {
                assert(sf[j] == sd[j]);
                let i = choose|i: int| 0 <= i < d.len() && d[i] == sd[j];
                assert(s[i] == sf[j]);
            } else {
                assert(sf[j] == s.last());
                assert(s[s.len() - 1] == sf[j]);
            }
        }
        assert forall|q: int| 0 <= q < s.len() && #[trigger] s[q].list == list && is_short(s[q]) implies sf.contains(
            s[q],
        ) by {
            if q < s.len() - 1 {
                assert(d[q] == s[q]);
                assert(d[q].list == list);
                let j = choose|j: int| 0 <= j < sd.len() && sd[j] == d[q];
                assert(sf[j] == sd[j]);
            } else {
                assert(sf[sf.len() - 1] == s[q]);
            }
        }
    }
}

/// Where pantry keys are unique, so are the keys of the shortfalls.
pub proof fn lemma_shortfalls_unique(s: Seq<PantryRow>, list: u128)
    requires
        forall|a: int, b: int| 0 <= a < s.len() && 0 <= b < s.len() && a != b ==> (s[a].list, s[a].id) != (
            s[b].list,
            s[b].id,
        ),
    ensures
        forall|a: int, b: int|
            0 <= a < shortfalls(s, list).len() && 0 <= b < shortfalls(s, list).len() && a != b ==> (
                shortfalls(s, list)[a].list,
                shortfalls(s, list)[a].id,
            ) != (shortfalls(s, list)[b].list, shortfalls(s, list)[b].id),
    decreases s.len(),
{
    if s.len() > 0 {
        let d = s.drop_last();
        assert forall|a: int, b: int| 0 <= a < d.len() && 0 <= b < d.len() && a != b implies (d[a].list, d[a].id) != (
            d[b].list,
            d[b].id,
        ) by {
            assert(d[a] == s[a] && d[b] == s[b]);
        }
        lemma_shortfalls_unique(d, list);
        lemma_shortfalls_members(d, list);
        let sf = shortfalls(s, list);
        let sd = shortfalls(d, list);
        assert forall|a: int, b: int| 0 <= a < sf.len() && 0 <= b < sf.len() && a != b implies (sf[a].list, sf[a].id) != (
            sf[b].list,
            sf[b].id,
        ) by {
            if a < sd.len() && b < sd.len() {
                assert(sf[a] == sd[a] && sf[b] == sd[b]);
            } else {
                let c = if a < sd.len() { a } else { b };
                assert(sf[c] == sd[c]);
                assert(d.contains(sd[c]));
                let i = choose|i: int| 0 <= i < d.len() && d[i] == sd[c];
                assert(s[i] == sd[c]);
                assert(sf[sf.len() - 1] == s[s.len() - 1]);
            }
        }
    }
}

impl Store {
    /// The result of a refill of `list` on behalf of `user`: the access
    /// verdict, else `InternalError` where the new items would exhaust item
    /// identities, else success.
    pub open spec fn refill_outcome(self, user: u128, list: u128) -> Result<(), Error> {
        if self.access(user, list, true) is Err {
            self.access(user, list, true)
        } else if self.next_item + shortfalls(self.pantry@, list).len() > i32::MAX {
            Err(Error::InternalError)
        } else {
            Ok(())
        }
    }

    /// The pantry of `list`. Needs read access.
    pub fn get_pantry(&self, user: u128, list: u128) -> (r: Result<Vec<PantryItem>, Error>)
        ensures
            self.access(user, list, false) is Err <==> r is Err,
            r is Err ==> r->Err_0 == self.access(user, list, false)->Err_0,
            r is Ok ==> r->Ok_0@ == pantry_in(self.pantry@, list),
    {
        match self.require_access(user, list, false) {
            Err(e) => {
                return Err(e);
            },
            Ok(()) => {},
        }
        let mut out: Vec<PantryItem> = Vec::new();
        let mut i: usize = 0;
        while i < self.pantry.len()
            invariant
                0 <= i <= self.pantry@.len(),
                out@ == pantry_in(self.pantry@.subrange(0, i as int), list),
            decreases self.pantry@.len() - i,
        {
            proof {
                assert(self.pantry@.subrange(0, i + 1).drop_last() =~= self.pantry@.subrange(0, i as int));
            }
            let row = &self.pantry[i];
            if row.list == list {
                out.push(PantryItem { id: row.id, name: row.name.clone(), amount: row.amount, target: row.target });
            }
            i = i + 1;
        }
        proof {
            assert(self.pantry@.subrange(0, i as int) =~= self.pantry@);
        }
        Ok(out)
    }

    /// Adds an item named `name` to the pantry of `list`, with nothing in
    /// stock and the given target. Needs write access; `InternalError` where
    /// pantry identities are exhausted. Returns the new item's identity.
    pub fn add_to_pantry(&mut self, user: u128, list: u128, name: String, target: Option<u32>) -> (r: Result<
        i32,
        Error,
    >)
        requires
            old(self).wf(),
        ensures
            final(self).wf(),
            old(self).access(user, list, true) is Err ==> r is Err && r->Err_0 == old(self).access(
                user,
                list,
                true,
            )->Err_0,
            old(self).access(user, list, true) is Ok && old(self).next_pantry == i32::MAX ==> r
                == Err::<i32, Error>(Error::InternalError),
            old(self).access(user, list, true) is Ok && old(self).next_pantry < i32::MAX ==> r == Ok::<
                i32,
                Error,
            >(old(self).next_pantry),
            r is Err ==> *final(self) == *old(self),
            r is Ok ==> final(self).pantry@ == old(self).pantry@.push(
                PantryRow { list, id: old(self).next_pantry, name, amount: 0, target },
            ),
            r is Ok ==> final(self).next_pantry == old(self).next_pantry + 1,
            r is Ok ==> final(self).lists@ == old(self).lists@ && final(self).shares@ == old(self).shares@
                && final(self).items@ == old(self).items@ && final(self).history@ == old(self).history@
                && final(self).next_item == old(self).next_item,
    {
        match self.require_access(user, list, true) {
            Err(e) => {
                return Err(e);
            },
            Ok(()) => {},
        }
        if self.next_pantry == i32::MAX {
            return Err(Error::InternalError);
        }
        let id = self.next_pantry;
        let ghost pre = *self;
        self.pantry.push(PantryRow { list, id, name, amount: 0, target });
        self.next_pantry = id + 1;
        proof {
            let post = *self;
            Store::lemma_shares_kept(pre, post);
            assert forall|k: int| 0 <= k < post.items@.len() implies post.link_ok(#[trigger] post.items@[k]) by {
                let it = post.items@[k];
                assert(pre.link_ok(pre.items@[k]));
                if it.from_pantry is Some {
                    let q = choose|q: int|
                        0 <= q < pre.pantry@.len() && #[trigger] pre.pantry@[q].list == it.list
                            && pre.pantry@[q].id == it.from_pantry->0;
                    assert(post.pantry@[q] == pre.pantry@[q]);
                }
            }
        }
        Ok(id)
    }

    /// Sets the amount and/or the target of pantry item `id` of `list`,
    /// leaving each unchanged where not given. Needs write access;
    /// `NotFound` where there is no such item.
    pub fn set_pantry_item(
        &mut self,
        user: u128,
        list: u128,
        id: i32,
        amount: Option<u32>,
        target: Option<u32>,
    ) -> (r: Result<(), Error>)
        requires
            old(self).wf(),
        ensures
            final(self).wf(),
            old(self).access(user, list, true) is Err ==> r is Err && r->Err_0 == old(self).access(
                user,
                list,
                true,
            )->Err_0,
            old(self).access(user, list, true) is Ok && !old(self).has_pantry(list, id) ==> r == Err::<
                (),
                Error,
            >(Error::NotFound),
            old(self).access(user, list, true) is Ok && old(self).has_pantry(list, id) ==> r is Ok,
            r is Err ==> *final(self) == *old(self),
            r is Ok ==> final(self).pantry@ == old(self).pantry@.update(
                old(self).pantry_index(list, id),
                edited_pantry(old(self).pantry@[old(self).pantry_index(list, id)], amount, target),
            ),
            r is Ok ==> final(self).lists@ == old(self).lists@ && final(self).shares@ == old(self).shares@
                && final(self).items@ == old(self).items@ && final(self).history@ == old(self).history@
                && final(self).next_item == old(self).next_item && final(self).next_pantry == old(
                self,
            ).next_pantry,
    {
        match self.require_access(user, list, true) {
            Err(e) => {
                return Err(e);
            },
            Ok(()) => {},
        }
        let k = match self.find_pantry(list, id) {
            Some(k) => k,
            None => {
                return Err(Error::NotFound);
            },
        };
        let ghost pre = *self;
        match amount {
            Some(a) => {
                self.pantry[k].amount = a;
            },
            None => {},
        }
        match target {
            Some(t) => {
                self.pantry[k].target = Some(t);
            },
            None => {},
        }
        proof {
            let post = *self;
            assert(post.pantry@ =~= pre.pantry@.update(
                k as int,
                edited_pantry(pre.pantry@[k as int], amount, target),
            ));
            Store::lemma_shares_kept(pre, post);
            Store::lemma_links_kept(pre, post);
            assert forall|j: int| 0 <= j < post.items@.len() implies post.link_ok(#[trigger] post.items@[j]) by {
                assert(pre.link_ok(pre.items@[j]));
            }
        }
        Ok(())
    }

    /// Deletes pantry item `id` of `list`, together with the list items
    /// that restock it. Needs write access; `NotFound` where there is no
    /// such item.
    pub fn delete_pantry_item(&mut self, user: u128, list: u128, id: i32) -> (r: Result<(), Error>)
        requires
            old(self).wf(),
        ensures
            final(self).wf(),
            old(self).access(user, list, true) is Err ==> r is Err && r->Err_0 == old(self).access(
                user,
                list,
                true,
            )->Err_0,
            old(self).access(user, list, true) is Ok && !old(self).has_pantry(list, id) ==> r == Err::<
                (),
                Error,
            >(Error::NotFound),
            old(self).access(user, list, true) is Ok && old(self).has_pantry(list, id) ==> r is Ok,
            r is Err ==> *final(self) == *old(self),
            r is Ok ==> final(self).items@ == outside_of(old(self).items@, (list, id)),
            r is Ok ==> final(self).pantry@ == old(self).pantry@.remove(old(self).pantry_index(list, id)),
            r is Ok ==> final(self).lists@ == old(self).lists@ && final(self).shares@ == old(self).shares@
                && final(self).history@ == old(self).history@ && final(self).next_item == old(self).next_item
                && final(self).next_pantry == old(self).next_pantry,
    {
        match self.require_access(user, list, true) {
            Err(e) => {
                return Err(e);
            },
            Ok(()) => {},
        }
        let k = match self.find_pantry(list, id) {
            Some(k) => k,
            None => {
                return Err(Error::NotFound);
            },
        };
        let ghost pre = *self;
        remove_members(&mut self.items, (list, id));
        self.pantry.remove(k);
        proof {
            let post = *self;
            lemma_first_match_range(pre.pantry@, pantry_key(list, id));
            Store::lemma_shares_kept(pre, post);
            lemma_outside_of_unique(pre.items@, (list, id), |r: ItemRow| (r.list, r.id));
            lemma_outside_of_contains(pre.items@, (list, id));
            assert forall|q: int| 0 <= q < post.pantry@.len() implies post.has_list(#[trigger] post.pantry@[q].list) by {
                let q2 = if q < k { q } else { q + 1 };
                assert(post.pantry@[q] == pre.pantry@[q2]);
            }
            assert forall|j: int| 0 <= j < post.items@.len() implies post.link_ok(#[trigger] post.items@[j]) && post.items@[j].id < post.next_item && post.has_list(post.items@[j].list) by {
                let it = post.items@[j];
                assert(post.items@.contains(it));
                let j2 = choose|j2: int| 0 <= j2 < pre.items@.len() && pre.items@[j2] == it;
                assert(pre.link_ok(pre.items@[j2]));
                assert(pre.has_list(pre.items@[j2].list));
                assert(pre.items@[j2].id < pre.next_item);
                if it.from_pantry is Some {
                    let q = choose|q: int|
                        0 <= q < pre.pantry@.len() && #[trigger] pre.pantry@[q].list == it.list
                            && pre.pantry@[q].id == it.from_pantry->0;
                    assert(q != k);
                    let q2 = if q < k { q } else { q - 1 };
                    assert(post.pantry@[q2] == pre.pantry@[q]);
                }
            }
        }
        Ok(())
    }
}

impl Store {
    fn count_shortfalls(&self, list: u128) -> (r: usize)
        ensures
            r == shortfalls(self.pantry@, list).len(),
    {
        let mut n: usize = 0;
        let mut i: usize = 0;
        while i < self.pantry.len()
            invariant
                0 <= i <= self.pantry@.len(),
                n == shortfalls(self.pantry@.subrange(0, i as int), list).len(),
                n <= i,
            decreases self.pantry@.len() - i,
        {
            proof {
                assert(self.pantry@.subrange(0, i + 1).drop_last() =~= self.pantry@.subrange(0, i as int));
            }
            let row = &self.pantry[i];
            let short = match row.target {
                Some(t) => row.amount < t,
                None => false,
            };
            if row.list == list && short {
                n = n + 1;
            }
            i = i + 1;
        }
        proof {
            assert(self.pantry@.subrange(0, i as int) =~= self.pantry@);
        }
        n
    }

    /// Adds to `list`, for each of its pantry items that holds less than
    /// its target, one list item with the missing quantity as its amount,
    /// linked to that pantry item; the pantry itself is left as it is.
    /// Needs write access; `InternalError`, with nothing changed, where the
    /// new items would exhaust item identities.
    pub fn refill_pantry(&mut self, user: u128, list: u128) -> (r: Result<(), Error>)
        requires
            old(self).wf(),
        ensures
            final(self).wf(),
            r == old(self).refill_outcome(user, list),
            r is Err ==> *final(self) == *old(self),
            r is Ok ==> refilled(*old(self), *final(self), list),
    {
        match self.require_access(user, list, true) {
            Err(e) => {
                return Err(e);
            },
            Ok(()) => {},
        }
        let count = self.count_shortfalls(list);
        if count as u128 + self.next_item as u128 > i32::MAX as u128 {
            return Err(Error::InternalError);
        }
        let ghost pre = *self;
        let ghost total = shortfalls(pre.pantry@, list);
        let ghost base = pre.items@.len();
        let mut i: usize = 0;
        while i < self.pantry.len()
            invariant
                pre.wf(),
                total == shortfalls(pre.pantry@, list),
                base == pre.items@.len(),
                pre.next_item + total.len() <= i32::MAX,
                0 <= i <= self.pantry@.len(),
                self.pantry@ == pre.pantry@,
                self.lists@ == pre.lists@,
                self.shares@ == pre.shares@,
                self.history@ == pre.history@,
                self.next_pantry == pre.next_pantry,
                self.items@.len() == base + shortfalls(pre.pantry@.subrange(0, i as int), list).len(),
                self.items@.subrange(0, base as int) == pre.items@,
                forall|k: int|
                    0 <= k < shortfalls(pre.pantry@.subrange(0, i as int), list).len() ==> refill_item(
                        #[trigger] self.items@[base + k],
                        shortfalls(pre.pantry@.subrange(0, i as int), list)[k],
                        pre.next_item + k,
                    ),
                self.next_item == pre.next_item + shortfalls(pre.pantry@.subrange(0, i as int), list).len(),
                forall|k: int| 0 <= k < self.items@.len() ==> self.link_ok(#[trigger] self.items@[k]),
                forall|a: int, b: int|
                    0 <= a < self.items@.len() && 0 <= b < self.items@.len() && a != b
                        ==> (self.items@[a].list, self.items@[a].id) != (self.items@[b].list, self.items@[b].id),
                forall|k: int| 0 <= k < self.items@.len() ==> #[trigger] self.items@[k].id < self.next_item,
                pre.has_list(list),
                forall|k: int| 0 <= k < self.items@.len() ==> pre.has_list(#[trigger] self.items@[k].list),
            decreases self.pantry@.len() - i,
        {
            let ghost prev = shortfalls(pre.pantry@.subrange(0, i as int), list);
            let ghost items0 = self.items@;
            proof {
                assert(pre.pantry@.subrange(0, i + 1).drop_last() =~= pre.pantry@.subrange(0, i as int));
                lemma_shortfalls_prefix(pre.pantry@, list, i + 1);
            }
            let row = &self.pantry[i];
            let short = match row.target {
                Some(t) => row.amount < t,
                None => false,
            };
            if row.list == list && short {
                let t = match row.target {
                    Some(t) => t,
                    None => 0,
                };
                let amount = render_quantity(t - row.amount);
                let id = self.next_item;
                self.items.push(
                    ItemRow { list, id, name: row.name.clone(), amount: Some(amount), from_pantry: Some(row.id) },
                );
                self.next_item = id + 1;
                proof {
                    let next = shortfalls(pre.pantry@.subrange(0, i + 1), list);
                    assert(next == prev.push(pre.pantry@[i as int]));
                    assert(self.items@.subrange(0, base as int) =~= pre.items@) by {
                        assert(items0.subrange(0, base as int) == pre.items@);
                    }
                    assert forall|k: int| 0 <= k < next.len() implies refill_item(
                        #[trigger] self.items@[base + k],
                        next[k],
                        pre.next_item + k,
                    ) by {
                        if k < prev.len() {
                            assert(self.items@[base + k] == items0[base + k]);
                        }
                    }
                    assert forall|k: int| 0 <= k < self.items@.len() implies self.link_ok(#[trigger] self.items@[k]) by {
                        if k < items0.len() {
                            assert(self.items@[k] == items0[k]);
                        } else {
                            assert(self.pantry@[i as int].list == list);
                        }
                    }
                    assert forall|k: int| 0 <= k < self.items@.len() implies #[trigger] self.items@[k].id < self.next_item
                        && pre.has_list(self.items@[k].list) by {
                        if k < items0.len() {
                            assert(self.items@[k] == items0[k]);
                        }
                    }
                    assert forall|a: int, b: int|
                        0 <= a < self.items@.len() && 0 <= b < self.items@.len() && a != b
                            implies (self.items@[a].list, self.items@[a].id) != (self.items@[b].list, self.items@[b].id) by {
                        if a < items0.len() {
                            assert(self.items@[a] == items0[a]);
                            assert(items0[a].id < id);
                        }
                        if b < items0.len() {
                            assert(self.items@[b] == items0[b]);
                            assert(items0[b].id < id);
                        }
                    }
                }
            }
            i = i + 1;
        }
        proof {
            assert(pre.pantry@.subrange(0, i as int) =~= pre.pantry@);
            Store::lemma_shares_kept(pre, *self);
            assert forall|k: int| base <= k < self.items@.len() implies refill_item(
                #[trigger] self.items@[k],
                total[k - base],
                pre.next_item + k - base,
            ) by {
                assert(self.items@[base + (k - base)] == self.items@[k]);
            }
        }
        Ok(())
    }
}

} // verus!
