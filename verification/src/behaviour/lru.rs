//! A set of addresses that keeps the most recent ones.
use crate::peer::{address_views, Multiaddr};
use vstd::prelude::*;

verus! {

/// A set of at most so many addresses, the one that was inserted least recently
/// first.
#[derive(Debug)]
pub struct LruSet {
    list: Vec<Multiaddr>,
    limit: usize,
}

/// What a set of addresses stands for.
#[verifier::ext_equal]
pub struct LruView {
    pub list: Seq<Seq<u8>>,
    pub limit: nat,
}

impl View for LruSet {
    type V = LruView;

    closed spec fn view(&self) -> LruView {
        LruView { list: address_views(self.list@), limit: self.limit as nat }
    }
}

impl LruView {
    /// No address is there twice, and no more than the limit allows are.
    pub open spec fn wf(self) -> bool {
        &&& self.limit > 0
        &&& self.list.len() <= self.limit
        &&& self.list.no_duplicates()
    }

    /// The set after an address was inserted: the address is the most recent one, and
    /// where that makes one too many the least recent one leaves.
    pub open spec fn inserted(self, address: Seq<u8>) -> LruView {
        let list = if self.list.contains(address) {
            self.list.remove(self.list.index_of(address)).push(address)
        } else if self.list.len() < self.limit {
            self.list.push(address)
        } else {
            self.list.drop_first().push(address)
        };
        LruView { list, ..self }
    }
}

/// Inserting an address keeps the set in order, and the address is in it then.
pub proof fn inserting_keeps_the_limit(set: LruView, address: Seq<u8>)
    requires
        set.wf(),
    ensures
        set.inserted(address).wf(),
        set.inserted(address).list.last() == address,
        forall|other: Seq<u8>|
            set.inserted(address).list.contains(other) ==> other == address || set.list.contains(
                other,
            ),
{
    let after = set.inserted(address).list;
    if set.list.contains(address) {
        let i = set.list.index_of(address);
        assert(set.list[i] == address);
        let rest = set.list.remove(i);
        assert forall|a: int, b: int|
            0 <= a < after.len() && 0 <= b < after.len() && a != b implies after[a] != after[b] by {
            let x = if a < i {
                a
            } else {
                a + 1
            };
            let y = if b < i {
                b
            } else {
                b + 1
            };
            if a < rest.len() {
                assert(after[a] == set.list[x]);
            }
            if b < rest.len() {
                assert(after[b] == set.list[y]);
            }
        }
        assert forall|other: Seq<u8>| after.contains(other) implies other == address
            || set.list.contains(other) by {
            let a = after.index_of(other);
            assert(after[a] == other);
            if a < i {
                assert(set.list[a] == other);
            } else if a < rest.len() {
                assert(set.list[a + 1] == other);
            }
        }
    } else {
        let d: int = if set.list.len() < set.limit {
            0
        } else {
            1
        };
        assert forall|a: int| 0 <= a < after.len() - 1 implies #[trigger] after[a] == set.list[a
            + d] by {}
        assert forall|a: int, b: int|
            0 <= a < after.len() && 0 <= b < after.len() && a != b implies after[a] != after[b] by {
            if a < after.len() - 1 {
                assert(after[a] == set.list[a + d]);
            }
            if b < after.len() - 1 {
                assert(after[b] == set.list[b + d]);
            }
        }
        assert forall|other: Seq<u8>| after.contains(other) implies other == address
            || set.list.contains(other) by {
            let a = after.index_of(other);
            assert(after[a] == other);
            if a < after.len() - 1 {
                assert(set.list[a + d] == other);
            }
        }
    }
}

impl LruSet {
    /// An empty set for at most so many addresses.
    pub fn new(limit: usize) -> (set: LruSet)
        requires
            limit > 0,
        ensures
            set@.wf(),
            set@.list == Seq::<Seq<u8>>::empty(),
            set@.limit == limit,
    {
        let set = LruSet { list: Vec::new(), limit };
        assert(set@.list =~= Seq::<Seq<u8>>::empty());
        set
    }

    /// Where an address is.
    fn find(&self, address: &Multiaddr) -> (r: Option<usize>)
        requires
            self@.wf(),
        ensures
            match r {
                Some(i) => self@.list.contains(address@) && i == self@.list.index_of(address@) && i
                    < self.list@.len(),
                None => !self@.list.contains(address@),
            },
    {
        let mut i: usize = 0;
        while i < self.list.len()
            invariant
                i <= self.list@.len(),
                self@.wf(),
                forall|j: int| 0 <= j < i ==> self@.list[j] != address@,
            decreases self.list@.len() - i,
        {
            if self.list[i].same(address) {
                assert(self@.list[i as int] == address@);
                return Some(i);
            }
            i = i + 1;
        }
        None
    }

    /// Inserts an address, and says whether it was not in the set.
    pub fn insert(&mut self, address: Multiaddr) -> (new: bool)
        requires
            old(self)@.wf(),
        ensures
            final(self)@ == old(self)@.inserted(address@),
            final(self)@.wf(),
            new == !old(self)@.list.contains(address@),
    {
        let ghost before = self@;
        proof {
            inserting_keeps_the_limit(before, address@);
        }
        match self.find(&address) {
            Some(i) => {
                self.list.remove(i);
                self.list.push(address);
                assert(self@.list =~= before.inserted(address@).list);
                false
            },
            None => {
                if self.list.len() >= self.limit {
                    self.list.remove(0);
                }
                self.list.push(address);
                assert(self@.list =~= before.inserted(address@).list);
                true
            },
        }
    }
}

/// An address that was known moves to the end, and all others stay. A new one enters at the
/// end, and only where the set is full does one leave: the one at the front. Those that stay
/// keep their order.
pub proof fn the_least_recent_address_leaves(set: LruView, address: Seq<u8>, i: int, j: int)
    requires
        set.wf(),
    ensures
        set.inserted(address).limit == set.limit,
        set.list.contains(address) ==> set.inserted(address).list.len() == set.list.len(),
        !set.list.contains(address) && set.list.len() < set.limit ==> set.inserted(address).list
            == set.list.push(address),
        !set.list.contains(address) && set.list.len() == set.limit ==> set.inserted(
            address,
        ).list.drop_last() == set.list.skip(1),
        set.list.contains(address) && 0 <= i < set.list.len() && set.list[i] != address
            ==> set.inserted(address).list.contains(set.list[i]),
        set.list.contains(address) && 0 <= i < j < set.list.len() && set.list[i] != address
            && set.list[j] != address ==> set.inserted(address).list.index_of(set.list[i])
            < set.inserted(address).list.index_of(set.list[j]),
{
    let after = set.inserted(address).list;
    inserting_keeps_the_limit(set, address);
    if set.list.contains(address) {
        let k = set.list.index_of(address);
        assert(set.list[k] == address);
        let at = |n: int| if n < k { n } else { n - 1 };
        if 0 <= i < set.list.len() && set.list[i] != address {
            assert(after[at(i)] == set.list[i]);
            assert(after.index_of(set.list[i]) == at(i));
        }
        if 0 <= j < set.list.len() && set.list[j] != address {
            assert(after[at(j)] == set.list[j]);
            assert(after.index_of(set.list[j]) == at(j));
        }
    } else if set.list.len() == set.limit {
        assert(after.drop_last() =~= set.list.skip(1));
    }
}

} // verus!
