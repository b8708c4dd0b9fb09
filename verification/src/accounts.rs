//! The flat account mapping: an association list from [`Address`] to
//! [`AccountState`] with unique keys, abstracted as a `Map` in contracts.
//! It is the durable image below the fork tree and the working set of each
//! slot overlay.

use vstd::prelude::*;

use crate::types::{AccountState, AccountStateView, Address};

verus! {

/// The mapping that a sequence of entries denotes: entries nearer the end
/// override earlier ones at the same address.
pub open spec fn map_of(s: Seq<(Address, AccountState)>) -> Map<Address, AccountStateView>
    decreases s.len(),
{
    if s.len() == 0 {
        Map::empty()
    } else {
        map_of(s.drop_last()).insert(s.last().0, s.last().1@)
    }
}

/// An address-to-account mapping, the unit of copy-on-write.
#[derive(Debug)]
pub struct AccountMap {
    pub entries: Vec<(Address, AccountState)>,
}

impl View for AccountMap {
    type V = Map<Address, AccountStateView>;

    open spec fn view(&self) -> Map<Address, AccountStateView> {
        map_of(self.entries@)
    }
}

/// An address is in `map_of(s)` exactly when some entry carries it.
pub proof fn lemma_map_of_contains(s: Seq<(Address, AccountState)>, a: Address)
    ensures
        map_of(s).contains_key(a) <==> exists|i: int| 0 <= i < s.len() && s[i].0 == a,
    decreases s.len(),
{
    if s.len() > 0 {
        lemma_map_of_contains(s.drop_last(), a);
        if map_of(s).contains_key(a) {
            if s.last().0 == a {
                assert(s[s.len() - 1].0 == a);
            } else {
                let i = choose|i: int| 0 <= i < s.drop_last().len() && s.drop_last()[i].0 == a;
                assert(s[i].0 == a);
            }
        }
        if exists|i: int| 0 <= i < s.len() && s[i].0 == a {
            let i = choose|i: int| 0 <= i < s.len() && s[i].0 == a;
            if i < s.len() - 1 {
                assert(s.drop_last()[i].0 == a);
            }
        }
    }
}

/// With unique keys, the entry that carries an address gives its value.
pub proof fn lemma_map_of_index(s: Seq<(Address, AccountState)>, i: int)
    requires
        0 <= i < s.len(),
        forall|j: int, k: int| 0 <= j < k < s.len() ==> (#[trigger] s[j]).0 != (#[trigger] s[k]).0,
    ensures
        map_of(s).contains_key(s[i].0),
        map_of(s)[s[i].0] == s[i].1@,
    decreases s.len(),
{
    lemma_map_of_contains(s, s[i].0);
    if i < s.len() - 1 {
        assert(s.drop_last()[i] == s[i]);
        lemma_map_of_index(s.drop_last(), i);
        assert(s.last().0 != s[i].0);
    }
}

/// Updating the entry that holds an address updates the mapping at that
/// address alone.
pub proof fn lemma_map_of_update(s: Seq<(Address, AccountState)>, i: int, v: AccountState)
    requires
        0 <= i < s.len(),
        forall|j: int, k: int| 0 <= j < k < s.len() ==> (#[trigger] s[j]).0 != (#[trigger] s[k]).0,
    ensures
        map_of(s.update(i, (s[i].0, v))) =~= map_of(s).insert(s[i].0, v@),
    decreases s.len(),
{
    let t = s.update(i, (s[i].0, v));
    if i == s.len() - 1 {
        assert(t.drop_last() =~= s.drop_last());
    } else {
        lemma_map_of_update(s.drop_last(), i, v);
        assert(t.drop_last() =~= s.drop_last().update(i, (s[i].0, v)));
        assert(t.last() == s.last());
        assert(s.last().0 != s[i].0);
    }
}

impl AccountMap {
    /// Keys are pairwise distinct, so each address denotes one entry.
    pub open spec fn wf(self) -> bool {
        forall|j: int, k: int|
            0 <= j < k < self.entries@.len() ==> (#[trigger] self.entries@[j]).0 != (
            #[trigger] self.entries@[k]).0
    }

    /// The empty mapping.
    pub fn new() -> (r: AccountMap)
        ensures
            r.wf(),
            r@ == Map::<Address, AccountStateView>::empty(),
    {
        let r = AccountMap { entries: Vec::new() };
        proof {
            assert(r.entries@.len() == 0);
        }
        r
    }

    /// The nearest record for `address`, or `None` when the mapping holds
    /// none.
    pub fn get(&self, address: Address) -> (r: Option<&AccountState>)
        requires
            self.wf(),
        ensures
            match r {
                Some(v) => self@.contains_key(address) && v@ == self@[address],
                None => !self@.contains_key(address),
            },
    {
        let n = self.entries.len();
        let mut i: usize = 0;
        while i < n
            invariant
                self.wf(),
                n == self.entries@.len(),
                i <= n,
                forall|j: int| 0 <= j < i ==> (#[trigger] self.entries@[j]).0 != address,
            decreases n - i,
        {
            if self.entries[i].0 == address {
                proof {
                    lemma_map_of_index(self.entries@, i as int);
                }
                return Some(&self.entries[i].1);
            }
            i = i + 1;
        }
        proof {
            lemma_map_of_contains(self.entries@, address);
        }
        None
    }

    /// Record `value` for `address`, replacing any earlier record.
    pub fn insert(&mut self, address: Address, value: AccountState)
        requires
            old(self).wf(),
        ensures
            final(self).wf(),
            final(self)@ == old(self)@.insert(address, value@),
    {
        let n = self.entries.len();
        let mut i: usize = 0;
        while i < n
            invariant
                self.wf(),
                self == old(self),
                n == self.entries@.len(),
                i <= n,
                forall|j: int| 0 <= j < i ==> (#[trigger] self.entries@[j]).0 != address,
            decreases n - i,
        {
            if self.entries[i].0 == address {
                proof {
                    lemma_map_of_update(self.entries@, i as int, value);
                }
                self.entries[i] = (address, value);
                return ;
            }
            i = i + 1;
        }
        proof {
            lemma_map_of_contains(self.entries@, address);
        }
        self.entries.push((address, value));
        proof {
            assert(self.entries@.drop_last() =~= old(self).entries@);
        }
    }

    /// Lay every entry of `other` over this mapping: at an address both
    /// hold, `other` wins.
    pub fn absorb(&mut self, other: &AccountMap)
        requires
            old(self).wf(),
            other.wf(),
        ensures
            final(self).wf(),
            final(self)@ == old(self)@.union_prefer_right(other@),
    {
        let n = other.entries.len();
        let mut i: usize = 0;
        proof {
            assert(other.entries@.take(0) =~= Seq::<(Address, AccountState)>::empty());
            assert(self@ =~= self@.union_prefer_right(map_of(other.entries@.take(0))));
        }
        while i < n
            invariant
                self.wf(),
                other.wf(),
                n == other.entries@.len(),
                i <= n,
                self@ == old(self)@.union_prefer_right(map_of(other.entries@.take(i as int))),
            decreases n - i,
        {
            let address = other.entries[i].0;
            let value = other.entries[i].1.duplicate();
            self.insert(address, value);
            i = i + 1;
            proof {
                let t = other.entries@;
                assert(t.take(i as int).drop_last() =~= t.take(i as int - 1));
                assert(t.take(i as int).last() == t[i as int - 1]);
                assert(self@ =~= old(self)@.union_prefer_right(map_of(t.take(i as int))));
            }
        }
        proof {
            assert(other.entries@.take(n as int) =~= other.entries@);
        }
    }

    /// How many addresses the mapping holds.
    pub fn len(&self) -> (r: usize)
        ensures
            r == self.entries@.len(),
    {
        self.entries.len()
    }

    /// An exact copy of the mapping.
    pub fn duplicate(&self) -> (r: AccountMap)
        ensures
            r.entries@.len() == self.entries@.len(),
            forall|i: int|
                0 <= i < self.entries@.len() ==> (#[trigger] r.entries@[i]).0
                    == self.entries@[i].0 && r.entries@[i].1@ == self.entries@[i].1@,
            r@ == self@,
            self.wf() ==> r.wf(),
    {
        let n = self.entries.len();
        let mut entries: Vec<(Address, AccountState)> = Vec::new();
        let mut i: usize = 0;
        while i < n
            invariant
                n == self.entries@.len(),
                i <= n,
                entries@.len() == i,
                forall|j: int|
                    0 <= j < i ==> (#[trigger] entries@[j]).0 == self.entries@[j].0
                        && entries@[j].1@ == self.entries@[j].1@,
            decreases n - i,
        {
            let a = self.entries[i].0;
            let v = self.entries[i].1.duplicate();
            entries.push((a, v));
            i = i + 1;
        }
        let r = AccountMap { entries };
        proof {
            lemma_map_of_pointwise(r.entries@, self.entries@);
        }
        r
    }
}

/// Two entry sequences whose keys and value views agree pointwise denote
/// the same mapping.
pub proof fn lemma_map_of_pointwise(s: Seq<(Address, AccountState)>, t: Seq<(Address, AccountState)>)
    requires
        s.len() == t.len(),
        forall|i: int|
            0 <= i < s.len() ==> (#[trigger] s[i]).0 == (#[trigger] t[i]).0 && s[i].1@ == t[i].1@,
    ensures
        map_of(s) =~= map_of(t),
    decreases s.len(),
{
    if s.len() > 0 {
        assert(forall|i: int|
            0 <= i < s.drop_last().len() ==> (#[trigger] s.drop_last()[i]).0 == (
            #[trigger] t.drop_last()[i]).0 && s.drop_last()[i].1@ == t.drop_last()[i].1@);
        lemma_map_of_pointwise(s.drop_last(), t.drop_last());
    }
}

} // verus!
