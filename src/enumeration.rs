use std::collections::HashMap;
use vstd::prelude::*;

use crate::address::Address;
use crate::error::PoapError;

verus! {

broadcast use vstd::std_specs::hash::group_hash_axioms;

/// Ordered lists of issued token ids: one of all tokens, in issuance order,
/// and one per holder. Each listed token remembers the slot of its holder's
/// list and its position there, so that it can leave that list in constant
/// time. A holder's list is found through `slots`, keyed by the low then
/// the high part of the holder's address.
pub struct EnumerationIndex {
    all_tokens: Vec<u64>,
    holders: Vec<Address>,
    slots: HashMap<u128, HashMap<u32, usize>>,
    lists: Vec<Vec<u64>>,
    slot: Vec<usize>,
    position: Vec<usize>,
}

impl EnumerationIndex {
    /// All tokens, in the order in which they were added.
    pub closed spec fn all(&self) -> Seq<u64> {
        self.all_tokens@
    }

    closed spec fn has_slot(&self, a: Address, k: int) -> bool {
        0 <= k < self.holders@.len() && self.holders@[k] == a
    }

    closed spec fn slot_exists(&self, a: Address) -> bool {
        exists|k: int| self.has_slot(a, k)
    }

    /// The tokens listed under `a`, in list order.
    pub closed spec fn tokens_of(&self, a: Address) -> Seq<u64> {
        if exists|k: int| self.has_slot(a, k) {
            self.lists@[choose|k: int| self.has_slot(a, k)]@
        } else {
            Seq::empty()
        }
    }

    pub closed spec fn wf(&self) -> bool {
        &&& self.holders@.len() == self.lists@.len()
        &&& self.holders@.no_duplicates()
        &&& forall|k: int|
            0 <= k < self.holders@.len() ==> {
                let a = #[trigger] self.holders@[k];
                &&& self.slots@.contains_key(a.low)
                &&& self.slots@[a.low]@.contains_key(a.high)
                &&& self.slots@[a.low]@[a.high] == k
            }
        &&& forall|lo: u128, hi: u32|
            self.slots@.contains_key(lo) && #[trigger] self.slots@[lo]@.contains_key(hi) ==> {
                &&& (self.slots@[lo]@[hi] as int) < self.holders@.len()
                &&& self.holders@[self.slots@[lo]@[hi] as int] == (Address { high: hi, low: lo })
            }
        &&& self.slot@.len() == self.all_tokens@.len()
        &&& self.position@.len() == self.all_tokens@.len()
        &&& self.all_tokens@.len() < u64::MAX
        &&& forall|i: int| 0 <= i < self.all_tokens@.len() ==> #[trigger] self.all_tokens@[i] == i + 1
        &&& forall|k: int, j: int|
            0 <= k < self.lists@.len() && 0 <= j < self.lists@[k]@.len() ==> {
                let t = #[trigger] self.lists@[k]@[j];
                &&& 1 <= t <= self.all_tokens@.len()
                &&& self.slot@[t - 1] == k
                &&& self.position@[t - 1] == j
            }
    }

    proof fn lemma_slot(&self, a: Address, k: int)
        requires
            self.wf(),
            self.has_slot(a, k),
        ensures
            self.tokens_of(a) == self.lists@[k]@,
    {
        let c = choose|k: int| self.has_slot(a, k);
        assert(self.has_slot(a, c));
        assert(c == k);
    }

    /// A well-formed index lists tokens `1..=n` globally, each owner list
    /// holds only such tokens, and a token is listed at most once overall.
    pub proof fn lemma_listed_once(&self, a: Address, b: Address, i: int, j: int)
        requires
            self.wf(),
            0 <= i < self.tokens_of(a).len(),
            0 <= j < self.tokens_of(b).len(),
            self.tokens_of(a)[i] == self.tokens_of(b)[j],
        ensures
            a == b,
            i == j,
    {
        let ka = choose|k: int| self.has_slot(a, k);
        let kb = choose|k: int| self.has_slot(b, k);
        assert(self.lists@[ka]@[i] == self.tokens_of(a)[i]);
        assert(self.lists@[kb]@[j] == self.tokens_of(b)[j]);
    }

    /// Every token listed under an owner is one of the tokens `1..=n`.
    pub proof fn lemma_listed_in_range(&self, a: Address, i: int)
        requires
            self.wf(),
            0 <= i < self.tokens_of(a).len(),
        ensures
            1 <= self.tokens_of(a)[i] <= self.all().len(),
            self.all()[self.tokens_of(a)[i] - 1] == self.tokens_of(a)[i],
    {
        let ka = choose|k: int| self.has_slot(a, k);
        assert(self.lists@[ka]@[i] == self.tokens_of(a)[i]);
    }

    /// The global list holds each of the tokens `1..=n` once, at position `t - 1`.
    pub proof fn lemma_all_is_range(&self)
        requires
            self.wf(),
        ensures
            forall|i: int| 0 <= i < self.all().len() ==> #[trigger] self.all()[i] == i + 1,
            self.all().len() < u64::MAX,
    {
    }

    pub fn new() -> (r: EnumerationIndex)
        ensures
            r.wf(),
            r.all() == Seq::<u64>::empty(),
            forall|a: Address| #[trigger] r.tokens_of(a) == Seq::<u64>::empty(),
    {
        EnumerationIndex {
            all_tokens: Vec::new(),
            holders: Vec::new(),
            slots: HashMap::new(),
            lists: Vec::new(),
            slot: Vec::new(),
            position: Vec::new(),
        }
    }

    fn slot_of(&self, a: Address) -> (r: Option<usize>)
        requires
            self.wf(),
        ensures
            match r {
                Some(k) => self.has_slot(a, k as int),
                None => forall|k: int| !self.has_slot(a, k),
            },
    {
        match self.slots.get(&a.low) {
            Some(inner) => match inner.get(&a.high) {
                Some(k) => {
                    proof {
                        assert(self.slots@[a.low]@.contains_key(a.high));
                    }
                    Some(*k)
                },
                None => None,
            },
            None => None,
        }
    }

    /// Number of tokens in the global list.
    pub fn total_supply(&self) -> (r: u64)
        requires
            self.wf(),
        ensures
            r == self.all().len(),
    {
        self.all_tokens.len() as u64
    }

    /// Number of tokens listed under `owner`.
    pub fn balance_of(&self, owner: Address) -> (r: u64)
        requires
            self.wf(),
        ensures
            r == self.tokens_of(owner).len(),
    {
        match self.slot_of(owner) {
            Some(k) => {
                proof {
                    self.lemma_slot(owner, k as int);
                    if self.lists@[k as int]@.len() > 0 {
                        let t = self.lists@[k as int]@[0];
                        assert(self.position@[t - 1] == 0);
                    }
                }
                self.lists[k].len() as u64
            },
            None => 0,
        }
    }

    /// The token at `index` in the global list.
    pub fn token_by_index(&self, index: u64) -> (r: Result<u64, PoapError>)
        requires
            self.wf(),
        ensures
            index < self.all().len() ==> r == Ok::<u64, PoapError>(self.all()[index as int]),
            index >= self.all().len() ==> r == Err::<u64, PoapError>(
                PoapError::OutOfBoundsIndex { owner: Address { high: 0, low: 0 }, index },
            ),
    {
        if index < self.all_tokens.len() as u64 {
            Ok(self.all_tokens[index as usize])
        } else {
            Err(PoapError::OutOfBoundsIndex { owner: Address::zero(), index })
        }
    }

    /// The token at `index` in the list of `owner`.
    pub fn token_of_owner_by_index(&self, owner: Address, index: u64) -> (r: Result<
        u64,
        PoapError,
    >)
        requires
            self.wf(),
        ensures
            index < self.tokens_of(owner).len() ==> r == Ok::<u64, PoapError>(
                self.tokens_of(owner)[index as int],
            ),
            index >= self.tokens_of(owner).len() ==> r == Err::<u64, PoapError>(
                PoapError::OutOfBoundsIndex { owner, index },
            ),
    {
        let n = self.balance_of(owner);
        if index < n {
            let k = self.slot_of(owner).unwrap();
            proof {
                self.lemma_slot(owner, k as int);
            }
            Ok(self.lists[k][index as usize])
        } else {
            Err(PoapError::OutOfBoundsIndex { owner, index })
        }
    }

    /// Adds the next token: at the end of the global list and of the list of `owner`.
    pub fn append(&mut self, owner: Address, token: u64)
        requires
            old(self).wf(),
            token == old(self).all().len() + 1,
            token < u64::MAX,
        ensures
            final(self).wf(),
            final(self).all() == old(self).all().push(token),
            final(self).tokens_of(owner) == old(self).tokens_of(owner).push(token),
            forall|b: Address|
                b != owner ==> #[trigger] final(self).tokens_of(b) == old(self).tokens_of(b),
    {
        let ghost pre = *self;
        let k = match self.slot_of(owner) {
            Some(k) => k,
            None => {
                let k = self.holders.len();
                let mut inner = match self.slots.remove(&owner.low) {
                    Some(m) => m,
                    None => HashMap::new(),
                };
                let ghost inner_before = inner@;
                inner.insert(owner.high, k);
                self.slots.insert(owner.low, inner);
                self.holders.push(owner);
                self.lists.push(Vec::new());
                proof {
                    assert forall|m: int| 0 <= m < self.holders@.len() implies {
                        let a = #[trigger] self.holders@[m];
                        &&& self.slots@.contains_key(a.low)
                        &&& self.slots@[a.low]@.contains_key(a.high)
                        &&& self.slots@[a.low]@[a.high] == m
                    } by {
                        if m < k {
                            let a = pre.holders@[m];
                            assert(pre.has_slot(a, m));
                            if a.low == owner.low {
                                assert(a.high != owner.high);
                                assert(inner_before == pre.slots@[a.low]@);
                            }
                        }
                    }
                    assert forall|lo: u128, hi: u32|
                        self.slots@.contains_key(lo) && #[trigger] self.slots@[lo]@.contains_key(hi) implies {
                        &&& (self.slots@[lo]@[hi] as int) < self.holders@.len()
                        &&& self.holders@[self.slots@[lo]@[hi] as int] == (Address { high: hi, low: lo })
                    } by {
                        if lo == owner.low {
                            if hi != owner.high {
                                assert(pre.slots@.contains_key(lo));
                                assert(inner_before == pre.slots@[lo]@);
                                assert(pre.slots@[lo]@.contains_key(hi));
                            }
                        } else {
                            assert(pre.slots@[lo] == self.slots@[lo]);
                        }
                    }
                }
                proof {
                    assert forall|a: Address, m: int| #[trigger]
                        self.has_slot(a, m) && a != owner implies pre.has_slot(a, m) by {}
                    assert(self.holders@[self.holders@.len() - 1] == owner);
                    assert forall|i: int, j: int|
                        0 <= i < j < self.holders@.len() implies self.holders@[i]
                        != self.holders@[j] by {
                        if j == self.holders@.len() - 1 {
                            assert(!pre.has_slot(owner, i));
                        }
                    }
                }
                self.holders.len() - 1
            },
        };
        let ghost mid = *self;
        proof {
            assert forall|k2: int, j: int|
                0 <= k2 < mid.lists@.len() && 0 <= j < mid.lists@[k2]@.len() implies {
                let t = #[trigger] mid.lists@[k2]@[j];
                &&& 1 <= t <= mid.all_tokens@.len()
                &&& mid.slot@[t - 1] == k2
                &&& mid.position@[t - 1] == j
            } by {
                assert(k2 < pre.lists@.len());
                assert(mid.lists@[k2] == pre.lists@[k2]);
            }
            mid.lemma_slot(owner, k as int);
            if pre.slot_exists(owner) {
                let c = choose|m: int| pre.has_slot(owner, m);
                assert(mid.has_slot(owner, c));
                assert(c == k);
            }
            assert forall|b: Address| b != owner implies #[trigger] mid.tokens_of(b)
                == pre.tokens_of(b) by {
                if pre.slot_exists(b) {
                    let c = choose|m: int| pre.has_slot(b, m);
                    assert(mid.has_slot(b, c));
                    mid.lemma_slot(b, c);
                } else {
                    assert forall|m: int| !mid.has_slot(b, m) by {
                        if mid.has_slot(b, m) {
                            assert(pre.has_slot(b, m));
                        }
                    }
                }
            }
        }
        let j = self.lists[k].len();
        self.lists[k].push(token);
        self.all_tokens.push(token);
        self.slot.push(k);
        self.position.push(j);
        proof {
            let n = pre.all_tokens@.len();
            assert forall|i: int| 0 <= i < self.all_tokens@.len() implies #[trigger]
                self.all_tokens@[i] == i + 1 by {
                if i < n {
                    assert(self.all_tokens@[i] == pre.all_tokens@[i]);
                }
            }
            assert forall|k2: int, j2: int|
                0 <= k2 < self.lists@.len() && 0 <= j2 < self.lists@[k2]@.len() implies {
                let t = #[trigger] self.lists@[k2]@[j2];
                &&& 1 <= t <= self.all_tokens@.len()
                &&& self.slot@[t - 1] == k2
                &&& self.position@[t - 1] == j2
            } by {
                if k2 == k && j2 == j {
                } else {
                    assert(self.lists@[k2]@[j2] == mid.lists@[k2]@[j2]);
                    let t = mid.lists@[k2]@[j2];
                    assert(self.slot@[t - 1] == mid.slot@[t - 1]);
                    assert(self.position@[t - 1] == mid.position@[t - 1]);
                }
            }
            self.lemma_slot(owner, k as int);
            assert(self.tokens_of(owner) =~= mid.tokens_of(owner).push(token));
            assert forall|b: Address| b != owner implies #[trigger] self.tokens_of(b)
                == mid.tokens_of(b) by {
                if mid.slot_exists(b) {
                    let c = choose|m: int| mid.has_slot(b, m);
                    self.lemma_slot(b, c);
                    mid.lemma_slot(b, c);
                    assert(self.lists@[c] == mid.lists@[c]);
                } else {
                    assert forall|m: int| !self.has_slot(b, m) by {
                        if self.has_slot(b, m) {
                            assert(mid.has_slot(b, m));
                        }
                    }
                }
            }
        }
    }

    /// Takes `token` out of the list of `owner`: the last token of that list
    /// moves into its place. The global list is left as it is.
    pub fn remove(&mut self, owner: Address, token: u64) -> (r: Result<(), PoapError>)
        requires
            old(self).wf(),
        ensures
            final(self).wf(),
            r is Ok <==> old(self).tokens_of(owner).contains(token),
            r is Err ==> r == Err::<(), PoapError>(
                PoapError::TokenNotIndexed { owner, token_id: token },
            ) && *final(self) == *old(self),
            r is Ok ==> exists|i: int|
                0 <= i < old(self).tokens_of(owner).len() && old(self).tokens_of(owner)[i] == token
                    && final(self).tokens_of(owner) == old(self).tokens_of(owner).update(
                    i,
                    old(self).tokens_of(owner).last(),
                ).drop_last(),
            final(self).all() == old(self).all(),
            forall|b: Address|
                b != owner ==> #[trigger] final(self).tokens_of(b) == old(self).tokens_of(b),
    {
        let ghost pre = *self;
        let k = match self.slot_of(owner) {
            Some(k) => k,
            None => {
                return Err(PoapError::TokenNotIndexed { owner, token_id: token });
            },
        };
        proof {
            self.lemma_slot(owner, k as int);
        }
        if token == 0 || token > self.all_tokens.len() as u64 {
            return Err(PoapError::TokenNotIndexed { owner, token_id: token });
        }
        let ti = (token - 1) as usize;
        if self.slot[ti] != k {
            proof {
                assert(!self.lists@[k as int]@.contains(token));
            }
            return Err(PoapError::TokenNotIndexed { owner, token_id: token });
        }
        let j = self.position[ti];
        if j >= self.lists[k].len() || self.lists[k][j] != token {
            proof {
                assert(!self.lists@[k as int]@.contains(token));
            }
            return Err(PoapError::TokenNotIndexed { owner, token_id: token });
        }
        let last_i = self.lists[k].len() - 1;
        let last = self.lists[k][last_i];
        self.lists[k].swap_remove(j);
        self.position.set((last - 1) as usize, j);
        proof {
            let old_l = pre.lists@[k as int]@;
            let new_l = self.lists@[k as int]@;
            assert(new_l == old_l.update(j as int, old_l.last()).drop_last());
            assert forall|k2: int, j2: int|
                0 <= k2 < self.lists@.len() && 0 <= j2 < self.lists@[k2]@.len() implies {
                let t = #[trigger] self.lists@[k2]@[j2];
                &&& 1 <= t <= self.all_tokens@.len()
                &&& self.slot@[t - 1] == k2
                &&& self.position@[t - 1] == j2
            } by {
                if k2 == k {
                    if j2 == j {
                        assert(self.lists@[k2]@[j2] == last);
                    } else {
                        assert(self.lists@[k2]@[j2] == old_l[j2]);
                        assert(old_l[j2] != last);
                    }
                } else {
                    assert(self.lists@[k2] == pre.lists@[k2]);
                    let t = pre.lists@[k2]@[j2];
                    assert(t != last);
                }
            }
            self.lemma_slot(owner, k as int);
            assert forall|b: Address| b != owner implies #[trigger] self.tokens_of(b)
                == pre.tokens_of(b) by {
                if pre.slot_exists(b) {
                    let c = choose|m: int| pre.has_slot(b, m);
                    self.lemma_slot(b, c);
                    pre.lemma_slot(b, c);
                    assert(self.lists@[c] == pre.lists@[c]);
                } else {
                    assert forall|m: int| !self.has_slot(b, m) by {
                        if self.has_slot(b, m) {
                            assert(pre.has_slot(b, m));
                        }
                    }
                }
            }
            assert(old_l[j as int] == token);
        }
        Ok(())
    }
}

} // verus!
