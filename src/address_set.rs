use vstd::prelude::*;

use crate::address::Address;

verus! {

/// A finite set of addresses, stored as a list without repetitions.
pub struct AddressSet {
    items: Vec<Address>,
}

impl View for AddressSet {
    type V = Set<Address>;

    closed spec fn view(&self) -> Set<Address> {
        Set::new(|a: Address| self.items@.contains(a))
    }
}

impl AddressSet {
    pub closed spec fn wf(&self) -> bool {
        self.items@.no_duplicates()
    }

    pub fn new() -> (r: AddressSet)
        ensures
            r.wf(),
            r@ == Set::<Address>::empty(),
    {
        let r = AddressSet { items: Vec::new() };
        assert(r@ =~= Set::<Address>::empty());
        r
    }

    fn position(&self, a: Address) -> (r: Option<usize>)
        ensures
            match r {
                Some(i) => i < self.items@.len() && self.items@[i as int] == a,
                None => !self.items@.contains(a),
            },
    {
        let mut i: usize = 0;
        while i < self.items.len()
            invariant
                i <= self.items@.len(),
                forall|j: int| 0 <= j < i ==> self.items@[j] != a,
            decreases self.items@.len() - i,
        {
            if self.items[i] == a {
                return Some(i);
            }
            i = i + 1;
        }
        None
    }

    pub fn contains(&self, a: Address) -> (r: bool)
        ensures
            r == self@.contains(a),
    {
        match self.position(a) {
            Some(_) => true,
            None => false,
        }
    }

    pub fn insert(&mut self, a: Address)
        requires
            old(self).wf(),
        ensures
            final(self).wf(),
            final(self)@ == old(self)@.insert(a),
    {
        if self.position(a).is_none() {
            let ghost before = self.items@;
            self.items.push(a);
            assert(self.items@[before.len() as int] == a);
            assert forall|b: Address| #[trigger] self.items@.contains(b) == (before.contains(b)
                || b == a) by {
                if before.contains(b) {
                    let k = choose|k: int| 0 <= k < before.len() && before[k] == b;
                    assert(self.items@[k] == b);
                }
            }
        }
        assert(self@ =~= old(self)@.insert(a));
    }

    pub fn remove(&mut self, a: Address)
        requires
            old(self).wf(),
        ensures
            final(self).wf(),
            final(self)@ == old(self)@.remove(a),
    {
        match self.position(a) {
            Some(i) => {
                let ghost before = self.items@;
                self.items.swap_remove(i);
                let ghost after = self.items@;
                assert forall|j: int, k: int| 0 <= j < k < after.len() implies after[j]
                    != after[k] by {
                    if k == i {
                        assert(after[k] == before[before.len() - 1]);
                    }
                    if j == i {
                        assert(after[j] == before[before.len() - 1]);
                    }
                }
                assert forall|b: Address| #[trigger] after.contains(b) == (before.contains(b)
                    && b != a) by {
                    if before.contains(b) && b != a {
                        let k = choose|k: int| 0 <= k < before.len() && before[k] == b;
                        if k == i {
                        } else if k == before.len() - 1 {
                            assert(after[i as int] == b);
                        } else {
                            assert(after[k] == b);
                        }
                    }
                    if after.contains(b) {
                        let k = choose|k: int| 0 <= k < after.len() && after[k] == b;
                        if k == i {
                            assert(before[before.len() - 1] == b);
                        } else {
                            assert(before[k] == b);
                        }
                    }
                }
                assert(self@ =~= old(self)@.remove(a));
            },
            None => {
                assert(self@ =~= old(self)@.remove(a));
            },
        }
    }
}

} // verus!
