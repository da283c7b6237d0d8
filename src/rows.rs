//! Stored rows, and the generic facts about looking rows up and removing
//! the rows that belong to one list.
use vstd::prelude::*;

verus! {

/// A list: its identity, owner, name and public flag.
pub struct ListRow {
    pub id: u128,
    pub owner: u128,
    pub name: String,
    pub public: bool,
}

/// A grant of access to a list for a user other than its owner.
pub struct ShareRow {
    pub list: u128,
    pub user: u128,
    pub readonly: bool,
}

/// A line of a list; `from_pantry` names the pantry item that it restocks.
pub struct ItemRow {
    pub list: u128,
    pub id: i32,
    pub name: String,
    pub amount: Option<String>,
    pub from_pantry: Option<i32>,
}

/// A stocked item of a list's pantry.
pub struct PantryRow {
    pub list: u128,
    pub id: i32,
    pub name: String,
    pub amount: u32,
    pub target: Option<u32>,
}

/// When a creator last added an item of a given (folded) name to a list.
pub struct HistoryRow {
    pub list: u128,
    pub creator: u128,
    pub name: String,
    pub last_used: u64,
}

/// Rows that can be selected by a key of type `K`: the rows of one list,
/// or the list items that restock one pantry item.
pub trait Scoped<K> {
    spec fn belongs(&self, k: K) -> bool;

    fn is_member(&self, k: K) -> (r: bool)
        ensures
            r == self.belongs(k),
    ;
}

impl Scoped<u128> for ListRow {
    open spec fn belongs(&self, k: u128) -> bool {
        self.id == k
    }

    fn is_member(&self, k: u128) -> (r: bool) {
        self.id == k
    }
}

impl Scoped<u128> for ShareRow {
    open spec fn belongs(&self, k: u128) -> bool {
        self.list == k
    }

    fn is_member(&self, k: u128) -> (r: bool) {
        self.list == k
    }
}

impl Scoped<u128> for ItemRow {
    open spec fn belongs(&self, k: u128) -> bool {
        self.list == k
    }

    fn is_member(&self, k: u128) -> (r: bool) {
        self.list == k
    }
}

/// A list item belongs to the pantry item `(list, id)` that it restocks.
impl Scoped<(u128, i32)> for ItemRow {
    open spec fn belongs(&self, k: (u128, i32)) -> bool {
        self.list == k.0 && self.from_pantry == Some(k.1)
    }

    fn is_member(&self, k: (u128, i32)) -> (r: bool) {
        self.list == k.0 && match self.from_pantry {
            Some(p) => p == k.1,
            None => false,
        }
    }
}

impl Scoped<u128> for PantryRow {
    open spec fn belongs(&self, k: u128) -> bool {
        self.list == k
    }

    fn is_member(&self, k: u128) -> (r: bool) {
        self.list == k
    }
}

impl Scoped<u128> for HistoryRow {
    open spec fn belongs(&self, k: u128) -> bool {
        self.list == k
    }

    fn is_member(&self, k: u128) -> (r: bool) {
        self.list == k
    }
}

/// The index of the first row that satisfies `p`, or -1 if none does.
pub open spec fn first_match<R>(s: Seq<R>, p: spec_fn(R) -> bool) -> int {
    if exists|k: int| 0 <= k < s.len() && #[trigger] p(s[k]) && forall|j: int| 0 <= j < k ==> !p(s[j]) {
        choose|k: int| 0 <= k < s.len() && #[trigger] p(s[k]) && forall|j: int| 0 <= j < k ==> !p(s[j])
    } else {
        -1
    }
}

/// An index that satisfies `p`, with none before it, is the first match.
pub proof fn lemma_first_match_at<R>(s: Seq<R>, p: spec_fn(R) -> bool, k: int)
    requires
        0 <= k < s.len(),
        p(s[k]),
        forall|j: int| 0 <= j < k ==> !p(s[j]),
    ensures
        first_match(s, p) == k,
{
    let c = first_match(s, p);
    assert(0 <= c < s.len() && p(s[c]) && forall|j: int| 0 <= j < c ==> !p(s[j]));
    if c < k {
        assert(!p(s[c]));
    } else if c > k {
        assert(!p(s[k]));
    }
}

/// Where no row satisfies `p`, there is no first match.
pub proof fn lemma_first_match_none<R>(s: Seq<R>, p: spec_fn(R) -> bool)
    requires
        forall|j: int| 0 <= j < s.len() ==> !p(s[j]),
    ensures
        first_match(s, p) == -1,
{
}

/// The first match is a valid index that satisfies `p`, or -1 where no
/// row does.
pub proof fn lemma_first_match_range<R>(s: Seq<R>, p: spec_fn(R) -> bool)
    ensures
        -1 <= first_match(s, p) < s.len(),
        first_match(s, p) >= 0 ==> p(s[first_match(s, p)]),
        first_match(s, p) == -1 ==> forall|j: int| 0 <= j < s.len() ==> !p(s[j]),
{
    if first_match(s, p) == -1 {
        assert forall|j: int| 0 <= j < s.len() implies !p(s[j]) by {
            if p(s[j]) {
                lemma_least_match(s, p, j);
            }
        }
    }
}

proof fn lemma_least_match<R>(s: Seq<R>, p: spec_fn(R) -> bool, j: int)
    requires
        0 <= j < s.len(),
        p(s[j]),
    ensures
        exists|k: int| 0 <= k < s.len() && #[trigger] p(s[k]) && forall|i: int| 0 <= i < k ==> !p(s[i]),
    decreases j,
{
    if exists|i: int| 0 <= i < j && p(s[i]) {
        let i = choose|i: int| 0 <= i < j && p(s[i]);
        lemma_least_match(s, p, i);
    } else {
        assert(p(s[j]) && forall|i: int| 0 <= i < j ==> !p(s[i]));
    }
}

/// The rows of `s` that do not belong to `k`, in their order.
pub open spec fn outside_of<R: Scoped<K>, K>(s: Seq<R>, k: K) -> Seq<R>
    decreases s.len(),
{
    if s.len() == 0 {
        s
    } else {
        let rest = outside_of(s.drop_first(), k);
        if s[0].belongs(k) {
            rest
        } else {
            seq![s[0]] + rest
        }
    }
}

/// A row is kept exactly when it was there and belongs to another list.
pub proof fn lemma_outside_of_contains<R: Scoped<K>, K>(s: Seq<R>, list: K)
    ensures
        forall|x: R| #[trigger] outside_of(s, list).contains(x) <==> (s.contains(x) && !x.belongs(list)),
    decreases s.len(),
{
    if s.len() > 0 {
        let rest = s.drop_first();
        lemma_outside_of_contains(rest, list);
        let o = outside_of(s, list);
        let orest = outside_of(rest, list);
        assert forall|x: R| #[trigger] s.contains(x) <==> (x == s[0] || rest.contains(x)) by {
            if s.contains(x) && x != s[0] {
                let k = choose|k: int| 0 <= k < s.len() && s[k] == x;
                assert(k > 0);
                assert(rest[k - 1] == x);
            }
            if rest.contains(x) {
                let k = choose|k: int| 0 <= k < rest.len() && rest[k] == x;
                assert(s[k + 1] == x);
            }
            if x == s[0] {
                assert(s[0] == x);
            }
        }
        if !s[0].belongs(list) {
            assert(o == seq![s[0]] + orest);
            assert forall|x: R| #[trigger] o.contains(x) <==> (x == s[0] || orest.contains(x)) by {
                if o.contains(x) && x != s[0] {
                    let k = choose|k: int| 0 <= k < o.len() && o[k] == x;
                    assert(k > 0);
                    assert(orest[k - 1] == x);
                }
                if orest.contains(x) {
                    let k = choose|k: int| 0 <= k < orest.len() && orest[k] == x;
                    assert(o[k + 1] == x);
                }
                if x == s[0] {
                    assert(o[0] == x);
                }
            }
        }
    }
}

/// Removing the rows of a list keeps a key that was unique unique.
pub proof fn lemma_outside_of_unique<R: Scoped<S>, S, K>(s: Seq<R>, list: S, key: spec_fn(R) -> K)
    requires
        forall|a: int, b: int| 0 <= a < s.len() && 0 <= b < s.len() && a != b ==> key(s[a]) != key(s[b]),
    ensures
        forall|a: int, b: int|
            0 <= a < outside_of(s, list).len() && 0 <= b < outside_of(s, list).len() && a != b
                ==> key(outside_of(s, list)[a]) != key(outside_of(s, list)[b]),
    decreases s.len(),
{
    if s.len() > 0 {
        let rest = s.drop_first();
        assert forall|a: int, b: int| 0 <= a < rest.len() && 0 <= b < rest.len() && a != b implies key(rest[a]) != key(rest[b]) by {
            assert(rest[a] == s[a + 1] && rest[b] == s[b + 1]);
        }
        lemma_outside_of_unique(rest, list, key);
        lemma_outside_of_contains(rest, list);
        let o = outside_of(s, list);
        let orest = outside_of(rest, list);
        if !s[0].belongs(list) {
            assert forall|a: int, b: int| 0 <= a < o.len() && 0 <= b < o.len() && a != b implies key(o[a]) != key(o[b]) by {
                if a == 0 || b == 0 {
                    let c = if a == 0 { b } else { a };
                    assert(o[c] == orest[c - 1]);
                    assert(orest.contains(orest[c - 1]));
                    assert(rest.contains(o[c]));
                    let k = choose|k: int| 0 <= k < rest.len() && rest[k] == o[c];
                    assert(s[k + 1] == o[c]);
                } else {
                    assert(o[a] == orest[a - 1] && o[b] == orest[b - 1]);
                }
            }
        }
    }
}

/// Removing one row keeps a key that was unique unique, and keeps every
/// other row.
pub proof fn lemma_remove_unique<R, K>(s: Seq<R>, i: int, key: spec_fn(R) -> K)
    requires
        0 <= i < s.len(),
        forall|a: int, b: int| 0 <= a < s.len() && 0 <= b < s.len() && a != b ==> key(s[a]) != key(s[b]),
    ensures
        forall|a: int| 0 <= a < s.len() - 1 ==> #[trigger] s.remove(i)[a] == if a < i { s[a] } else { s[a + 1] },
        forall|a: int, b: int|
            0 <= a < s.len() - 1 && 0 <= b < s.len() - 1 && a != b ==> key(s.remove(i)[a]) != key(s.remove(i)[b]),
{
    let t = s.remove(i);
    assert forall|a: int| 0 <= a < s.len() - 1 implies #[trigger] t[a] == if a < i { s[a] } else { s[a + 1] } by {
    }
    assert forall|a: int, b: int| 0 <= a < s.len() - 1 && 0 <= b < s.len() - 1 && a != b implies key(t[a]) != key(t[b]) by {
        let a2 = if a < i { a } else { a + 1 };
        let b2 = if b < i { b } else { b + 1 };
        assert(t[a] == s[a2] && t[b] == s[b2]);
    }
}

/// Removes, in place, every row that belongs to `list`.
pub fn remove_members<R: Scoped<K>, K: Copy>(rows: &mut Vec<R>, list: K)
    ensures
        final(rows)@ == outside_of(old(rows)@, list),
{
    let ghost orig = rows@;
    let n = rows.len();
    let mut i: usize = n;
    while i > 0
        invariant
            0 <= i <= n,
            n == orig.len(),
            rows@ == orig.subrange(0, i as int) + outside_of(orig.subrange(i as int, n as int), list),
        decreases i,
    {
        i = i - 1;
        let ghost tail = orig.subrange(i as int, n as int);
        proof {
            assert(tail.drop_first() =~= orig.subrange(i + 1, n as int));
            assert(tail[0] == orig[i as int]);
            assert(rows@[i as int] == orig[i as int]);
        }
        if rows[i].is_member(list) {
            rows.remove(i);
            assert(rows@ =~= orig.subrange(0, i as int) + outside_of(tail, list));
        } else {
            assert(rows@ =~= orig.subrange(0, i as int) + outside_of(tail, list));
        }
    }
    assert(orig.subrange(0, n as int) =~= orig);
    assert(rows@ =~= outside_of(orig, list));
}

} // verus!
