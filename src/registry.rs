use vstd::prelude::*;

verus! {

/// One registered target and the control handles of its loop.
pub struct Slot<E> {
    pub key: String,
    pub entry: E,
}

/// Whether `s` holds `k` as one of its strings.
pub open spec fn holds_key(s: Seq<String>, k: Seq<char>) -> bool {
    exists|i: int| 0 <= i < s.len() && (#[trigger] s[i])@ == k
}

/// What a stop request found for one of its keys.
pub enum Claim<E> {
    /// The key was registered; its entry was taken out.
    Found { key: String, entry: E },
    /// The key was not registered.
    Missing { key: String },
}

impl<E> Claim<E> {
    /// The key that the claim was made for.
    pub open spec fn key_spec(&self) -> String {
        match self {
            Claim::Found { key, .. } => *key,
            Claim::Missing { key } => *key,
        }
    }
}

/// The keys that a list of strings names.
pub open spec fn named(s: Seq<String>) -> Set<Seq<char>> {
    Set::new(|k: Seq<char>| holds_key(s, k))
}

/// Whether one of the first `n` slots holds `k`.
pub open spec fn key_before<E>(slots: Seq<Slot<E>>, k: Seq<char>, n: int) -> bool {
    exists|b: int| 0 <= b < n && (#[trigger] slots[b]).key@ == k
}

/// The mapping from target key to the entry of its running loop.
///
/// Each key stands in at most one slot; the slots keep the order in which
/// their targets were admitted.
pub struct Registry<E> {
    slots: Vec<Slot<E>>,
}

impl<E> View for Registry<E> {
    type V = Map<Seq<char>, E>;

    closed spec fn view(&self) -> Map<Seq<char>, E> {
        Map::new(
            |k: Seq<char>| exists|i: int| 0 <= i < self.slots@.len() && (#[trigger] self.slots@[i]).key@ == k,
            |k: Seq<char>|
                self.slots@[choose|i: int| 0 <= i < self.slots@.len() && (#[trigger] self.slots@[i]).key@ == k].entry,
        )
    }
}

impl<E> Registry<E> {
    /// No two slots hold the same key.
    pub closed spec fn wf(&self) -> bool {
        forall|i: int, j: int|
            0 <= i < self.slots@.len() && 0 <= j < self.slots@.len() && i != j
                ==> (#[trigger] self.slots@[i]).key@ != (#[trigger] self.slots@[j]).key@
    }

    /// The keys of the slots, in the order in which they were admitted.
    pub closed spec fn slot_keys(&self) -> Seq<Seq<char>> {
        self.slots@.map_values(|s: Slot<E>| s.key@)
    }

    /// A well-formed registry never holds two entries for one key: its
    /// slots' keys are pairwise distinct and are exactly the mapped keys.
    pub proof fn lemma_unique_keys(&self)
        requires
            self.wf(),
        ensures
            self.slot_keys().no_duplicates(),
            self.slot_keys().to_set() == self@.dom(),
            self.slot_keys().len() == self@.len(),
    {
        self.lemma_dom_len();
        let keys = self.slot_keys();
        assert forall|i: int, j: int| 0 <= i < keys.len() && 0 <= j < keys.len() && i != j
            implies keys[i] != keys[j] by {
            assert(self.slots@[i].key@ != self.slots@[j].key@);
        };
        assert(self@.dom() =~= keys.to_set()) by {
            assert forall|k: Seq<char>| self@.dom().contains(k) implies keys.to_set().contains(k) by {
                let i = choose|i: int| 0 <= i < self.slots@.len() && (#[trigger] self.slots@[i]).key@ == k;
                assert(keys[i] == k);
            };
            assert forall|k: Seq<char>| keys.to_set().contains(k) implies self@.dom().contains(k) by {
                let i = choose|i: int| 0 <= i < keys.len() && keys[i] == k;
                assert(self.slots@[i].key@ == k);
            };
        };
    }

    proof fn lemma_entry_at(&self, i: int)
        requires
            self.wf(),
            0 <= i < self.slots@.len(),
        ensures
            self@.contains_key(self.slots@[i].key@),
            self@[self.slots@[i].key@] == self.slots@[i].entry,
    {
        let k = self.slots@[i].key@;
        assert(self@.dom().contains(k));
        let j = choose|j: int| 0 <= j < self.slots@.len() && (#[trigger] self.slots@[j]).key@ == k;
        assert(j == i);
    }

    /// An empty registry.
    pub fn new() -> (r: Self)
        ensures
            r.wf(),
            r@ == Map::<Seq<char>, E>::empty(),
    {
        let r = Registry { slots: Vec::new() };
        assert(r@ =~= Map::<Seq<char>, E>::empty());
        r
    }

    /// The number of registered targets.
    pub fn len(&self) -> (r: usize)
        requires
            self.wf(),
        ensures
            r == self@.len(),
    {
        proof { self.lemma_dom_len(); }
        self.slots.len()
    }

    proof fn lemma_dom_len(&self)
        requires
            self.wf(),
        ensures
            self@.dom().finite(),
            self@.dom().len() == self.slots@.len(),
        decreases self.slots@.len(),
    {
        let keys = self.slots@.map_values(|s: Slot<E>| s.key@);
        assert forall|i: int, j: int| 0 <= i < keys.len() && 0 <= j < keys.len() && i != j
            implies keys[i] != keys[j] by {
            assert(self.slots@[i].key@ != self.slots@[j].key@);
        };
        assert(keys.no_duplicates());
        keys.unique_seq_to_set();
        assert(self@.dom() =~= keys.to_set()) by {
            assert forall|k: Seq<char>| self@.dom().contains(k) implies keys.to_set().contains(k) by {
                let i = choose|i: int| 0 <= i < self.slots@.len() && (#[trigger] self.slots@[i]).key@ == k;
                assert(keys[i] == k);
            };
            assert forall|k: Seq<char>| keys.to_set().contains(k) implies self@.dom().contains(k) by {
                let i = choose|i: int| 0 <= i < keys.len() && keys[i] == k;
                assert(self.slots@[i].key@ == k);
            };
        };
    }

    /// The slot that holds `key`, if any.
    fn find(&self, key: &String) -> (r: Option<usize>)
        requires
            self.wf(),
        ensures
            match r {
                Some(i) => i < self.slots@.len() && self.slots@[i as int].key@ == key@,
                None => !self@.contains_key(key@),
            },
    {
        let mut i: usize = 0;
        while i < self.slots.len()
            invariant
                i <= self.slots@.len(),
                forall|j: int| 0 <= j < i ==> (#[trigger] self.slots@[j]).key@ != key@,
            decreases self.slots@.len() - i,
        {
            if self.slots[i].key == *key {
                return Some(i);
            }
            i = i + 1;
        }
        None
    }

    /// Whether `key` is registered.
    pub fn contains_key(&self, key: &String) -> (r: bool)
        requires
            self.wf(),
        ensures
            r == self@.contains_key(key@),
    {
        match self.find(key) {
            Some(i) => {
                proof { self.lemma_entry_at(i as int); }
                true
            },
            None => false,
        }
    }

    /// Stores `entry` under `key` when no entry holds that key; otherwise
    /// leaves the registry as it was and returns `false`.
    pub fn insert(&mut self, key: String, entry: E) -> (r: bool)
        requires
            old(self).wf(),
        ensures
            final(self).wf(),
            r == !old(self)@.contains_key(key@),
            final(self)@ == if r { old(self)@.insert(key@, entry) } else { old(self)@ },
    {
        if self.contains_key(&key) {
            return false;
        }
        let ghost before = *self;
        let ghost k = key@;
        self.slots.push(Slot { key, entry });
        proof {
            let n = before.slots@.len() as int;
            assert forall|i: int| 0 <= i < n implies (#[trigger] self.slots@[i]).key@ != k by {
                if self.slots@[i].key@ == k {
                    before.lemma_entry_at(i);
                }
            };
            assert(self.wf());
            assert forall|q: Seq<char>| self@.contains_key(q) implies
                self@[q] == before@.insert(k, entry)[q] by {
                if q == k {
                    self.lemma_entry_at(n);
                } else {
                    let i = choose|i: int| 0 <= i < self.slots@.len() && (#[trigger] self.slots@[i]).key@ == q;
                    self.lemma_entry_at(i);
                    before.lemma_entry_at(i);
                }
            };
            assert forall|q: Seq<char>| #[trigger] before@.insert(k, entry).contains_key(q)
                implies self@.contains_key(q) by {
                if q == k {
                    self.lemma_entry_at(n);
                } else {
                    let i = choose|i: int| 0 <= i < before.slots@.len() && (#[trigger] before.slots@[i]).key@ == q;
                    assert(self.slots@[i].key@ == q);
                }
            };
            assert(self@ =~= before@.insert(k, entry));
        }
        true
    }

    /// Takes the entry of `key` out of the registry, if there is one.
    pub fn remove(&mut self, key: &String) -> (r: Option<E>)
        requires
            old(self).wf(),
        ensures
            final(self).wf(),
            final(self)@ == old(self)@.remove(key@),
            match r {
                Some(e) => old(self)@.contains_key(key@) && e == old(self)@[key@],
                None => !old(self)@.contains_key(key@),
            },
    {
        match self.find(key) {
            None => {
                proof { assert(self@.remove(key@) =~= self@); }
                None
            },
            Some(i) => {
                let ghost before = *self;
                proof { before.lemma_entry_at(i as int); }
                let slot = self.slots.remove(i);
                proof {
                    let k = key@;
                    assert forall|a: int| 0 <= a < self.slots@.len() implies
                        (#[trigger] self.slots@[a]) == before.slots@[if a < i { a } else { a + 1 }] by {};
                    assert(self.wf()) by {
                        assert forall|a: int, b: int|
                            0 <= a < self.slots@.len() && 0 <= b < self.slots@.len() && a != b
                            implies (#[trigger] self.slots@[a]).key@ != (#[trigger] self.slots@[b]).key@ by {
                            let a2 = if a < i { a } else { a + 1 };
                            let b2 = if b < i { b } else { b + 1 };
                            assert(before.slots@[a2].key@ != before.slots@[b2].key@);
                        };
                    };
                    assert forall|q: Seq<char>| #[trigger] self@.contains_key(q) <==> before@.remove(k).contains_key(q) by {
                        if self@.contains_key(q) {
                            let a = choose|a: int| 0 <= a < self.slots@.len() && (#[trigger] self.slots@[a]).key@ == q;
                            let a2 = if a < i { a } else { a + 1 };
                            assert(before.slots@[a2].key@ == q);
                            assert(a2 != i);
                        }
                        if before@.remove(k).contains_key(q) {
                            let b = choose|b: int| 0 <= b < before.slots@.len() && (#[trigger] before.slots@[b]).key@ == q;
                            assert(b != i);
                            let b2 = if b < i { b } else { b - 1 };
                            assert(self.slots@[b2].key@ == q);
                        }
                    };
                    assert forall|q: Seq<char>| #[trigger] self@.contains_key(q) implies
                        self@[q] == before@[q] by {
                        let a = choose|a: int| 0 <= a < self.slots@.len() && (#[trigger] self.slots@[a]).key@ == q;
                        let a2 = if a < i { a } else { a + 1 };
                        self.lemma_entry_at(a);
                        before.lemma_entry_at(a2);
                    };
                    assert(self@ =~= before@.remove(k));
                }
                Some(slot.entry)
            },
        }
    }

    /// Takes out the entries of `keys`, in order. A key that is not
    /// registered, or that stood earlier in `keys`, yields `Missing`.
    pub fn claim(&mut self, keys: &Vec<String>) -> (r: Vec<Claim<E>>)
        requires
            old(self).wf(),
        ensures
            final(self).wf(),
            final(self)@ == old(self)@.remove_keys(named(keys@)),
            r@.len() == keys@.len(),
            forall|i: int| 0 <= i < r@.len() ==> (#[trigger] r@[i]).key_spec() == keys@[i] && match r@[i] {
                Claim::Found { entry, .. } =>
                    old(self)@.contains_key(keys@[i]@) && !holds_key(keys@.subrange(0, i), keys@[i]@)
                        && entry == old(self)@[keys@[i]@],
                Claim::Missing { .. } =>
                    !old(self)@.contains_key(keys@[i]@) || holds_key(keys@.subrange(0, i), keys@[i]@),
            },
    {
        let ghost start = self@;
        let mut r: Vec<Claim<E>> = Vec::new();
        let mut i: usize = 0;
        proof { assert(start.remove_keys(named(keys@.subrange(0, 0))) =~= start); }
        while i < keys.len()
            invariant
                self.wf(),
                i <= keys@.len(),
                r@.len() == i,
                self@ == start.remove_keys(named(keys@.subrange(0, i as int))),
                forall|j: int| 0 <= j < i ==> (#[trigger] r@[j]).key_spec() == keys@[j] && match r@[j] {
                    Claim::Found { entry, .. } =>
                        start.contains_key(keys@[j]@) && !holds_key(keys@.subrange(0, j), keys@[j]@)
                            && entry == start[keys@[j]@],
                    Claim::Missing { .. } =>
                        !start.contains_key(keys@[j]@) || holds_key(keys@.subrange(0, j), keys@[j]@),
                },
            decreases keys@.len() - i,
        {
            let ghost before = self@;
            let ghost k = keys@[i as int]@;
            let ghost pre = keys@.subrange(0, i as int);
            proof {
                assert(before.contains_key(k) <==> (start.contains_key(k) && !holds_key(pre, k)));
            }
            let key = keys[i].clone();
            let c = match self.remove(&keys[i]) {
                Some(entry) => Claim::Found { key, entry },
                None => Claim::Missing { key },
            };
            r.push(c);
            proof {
                let next = keys@.subrange(0, i + 1);
                assert(named(next) =~= named(pre).insert(k)) by {
                    assert forall|q: Seq<char>| named(next).contains(q) implies named(pre).insert(k).contains(q) by {
                        let a = choose|a: int| 0 <= a < next.len() && (#[trigger] next[a])@ == q;
                        if a < i {
                            assert(pre[a] == next[a]);
                        }
                    };
                    assert forall|q: Seq<char>| named(pre).insert(k).contains(q) implies named(next).contains(q) by {
                        if q == k {
                            assert(next[i as int]@ == q);
                        } else {
                            let a = choose|a: int| 0 <= a < pre.len() && (#[trigger] pre[a])@ == q;
                            assert(next[a] == pre[a]);
                        }
                    };
                };
                assert(self@ =~= start.remove_keys(named(next)));
                assert(r@[i as int] == c);
            }
            i = i + 1;
        }
        proof { assert(keys@.subrange(0, keys@.len() as int) =~= keys@); }
        r
    }

    /// Takes out every entry whose key `keep` does not name, in one step.
    pub fn claim_all_except(&mut self, keep: &Vec<String>) -> (r: Vec<Slot<E>>)
        requires
            old(self).wf(),
        ensures
            final(self).wf(),
            final(self)@ == old(self)@.restrict(named(keep@)),
            forall|i: int| 0 <= i < r@.len() ==> {
                let k = (#[trigger] r@[i]).key@;
                old(self)@.contains_key(k) && !holds_key(keep@, k) && r@[i].entry == old(self)@[k]
            },
            forall|k: Seq<char>| old(self)@.contains_key(k) && !holds_key(keep@, k)
                ==> key_before(r@, k, r@.len() as int),
            forall|i: int, j: int| 0 <= i < r@.len() && 0 <= j < r@.len() && i != j
                ==> (#[trigger] r@[i]).key@ != (#[trigger] r@[j]).key@,
    {
        let ghost start = self@;
        let doomed = self.keys_not_in(keep);
        let mut r: Vec<Slot<E>> = Vec::new();
        let mut i: usize = 0;
        while i < doomed.len()
            invariant
                self.wf(),
                i <= doomed@.len(),
                r@.len() == i,
                forall|a: int| 0 <= a < doomed@.len() ==>
                    start.contains_key((#[trigger] doomed@[a])@) && !holds_key(keep@, doomed@[a]@),
                forall|a: int, c: int| 0 <= a < doomed@.len() && 0 <= c < doomed@.len() && a != c
                    ==> (#[trigger] doomed@[a])@ != (#[trigger] doomed@[c])@,
                forall|k: Seq<char>| start.contains_key(k) && !holds_key(keep@, k) ==> holds_key(doomed@, k),
                self@ == start.remove_keys(named(doomed@.subrange(0, i as int))),
                forall|a: int| 0 <= a < i ==> (#[trigger] r@[a]).key@ == doomed@[a]@
                    && r@[a].entry == start[doomed@[a]@],
            decreases doomed@.len() - i,
        {
            let ghost k = doomed@[i as int]@;
            let ghost pre = doomed@.subrange(0, i as int);
            let ghost next = doomed@.subrange(0, i + 1);
            proof {
                assert(!holds_key(pre, k)) by {
                    if holds_key(pre, k) {
                        let a = choose|a: int| 0 <= a < pre.len() && (#[trigger] pre[a])@ == k;
                        assert(doomed@[a]@ == k);
                    }
                };
                assert(named(next) =~= named(pre).insert(k)) by {
                    assert forall|q: Seq<char>| named(next).contains(q) implies named(pre).insert(k).contains(q) by {
                        let a = choose|a: int| 0 <= a < next.len() && (#[trigger] next[a])@ == q;
                        if a < i {
                            assert(pre[a] == next[a]);
                        }
                    };
                    assert forall|q: Seq<char>| named(pre).insert(k).contains(q) implies named(next).contains(q) by {
                        if q == k {
                            assert(next[i as int]@ == q);
                        } else {
                            let a = choose|a: int| 0 <= a < pre.len() && (#[trigger] pre[a])@ == q;
                            assert(next[a] == pre[a]);
                        }
                    };
                };
            }
            let taken = self.remove(&doomed[i]);
            match taken {
                Some(entry) => {
                    r.push(Slot { key: doomed[i].clone(), entry });
                },
                None => {
                    proof { assert(false); }
                },
            }
            proof {
                assert(self@ =~= start.remove_keys(named(next)));
            }
            i = i + 1;
        }
        proof {
            assert(doomed@.subrange(0, doomed@.len() as int) =~= doomed@);
            assert(self@ =~= start.restrict(named(keep@))) by {
                assert forall|q: Seq<char>| #[trigger] self@.contains_key(q) <==> start.restrict(named(keep@)).contains_key(q) by {
                    if start.contains_key(q) && !named(keep@).contains(q) {
                        assert(holds_key(doomed@, q));
                    }
                    if named(doomed@).contains(q) {
                        let a = choose|a: int| 0 <= a < doomed@.len() && (#[trigger] doomed@[a])@ == q;
                        assert(!holds_key(keep@, doomed@[a]@));
                    }
                };
            };
            assert forall|k: Seq<char>| start.contains_key(k) && !holds_key(keep@, k)
                implies key_before(r@, k, r@.len() as int) by {
                let a = choose|a: int| 0 <= a < doomed@.len() && (#[trigger] doomed@[a])@ == k;
                assert(r@[a].key@ == k);
            };
            assert forall|a: int, c: int| 0 <= a < r@.len() && 0 <= c < r@.len() && a != c
                implies (#[trigger] r@[a]).key@ != (#[trigger] r@[c]).key@ by {
                assert(doomed@[a]@ != doomed@[c]@);
            };
        }
        r
    }

    /// The registered keys that `allow` does not hold, each once.
    pub fn keys_not_in(&self, allow: &Vec<String>) -> (r: Vec<String>)
        requires
            self.wf(),
        ensures
            forall|i: int| 0 <= i < r@.len() ==>
                self@.contains_key((#[trigger] r@[i])@) && !holds_key(allow@, r@[i]@),
            forall|k: Seq<char>| self@.contains_key(k) && !holds_key(allow@, k) ==> holds_key(r@, k),
            forall|i: int, j: int| 0 <= i < r@.len() && 0 <= j < r@.len() && i != j
                ==> (#[trigger] r@[i])@ != (#[trigger] r@[j])@,
    {
        let mut r: Vec<String> = Vec::new();
        let mut i: usize = 0;
        while i < self.slots.len()
            invariant
                self.wf(),
                i <= self.slots@.len(),
                forall|a: int| 0 <= a < r@.len() ==> key_before(self.slots@, (#[trigger] r@[a])@, i as int),
                forall|a: int| 0 <= a < r@.len() ==> !holds_key(allow@, (#[trigger] r@[a])@),
                forall|b: int| 0 <= b < i && !holds_key(allow@, (#[trigger] self.slots@[b]).key@)
                    ==> holds_key(r@, self.slots@[b].key@),
                forall|a: int, c: int| 0 <= a < r@.len() && 0 <= c < r@.len() && a != c
                    ==> (#[trigger] r@[a])@ != (#[trigger] r@[c])@,
            decreases self.slots@.len() - i,
        {
            if !list_holds(allow, &self.slots[i].key) {
                let ghost k = self.slots@[i as int].key@;
                proof {
                    assert forall|a: int| 0 <= a < r@.len() implies (#[trigger] r@[a])@ != k by {
                        assert(key_before(self.slots@, r@[a]@, i as int));
                        let b = choose|b: int| 0 <= b < i && (#[trigger] self.slots@[b]).key@ == r@[a]@;
                        assert(self.slots@[b].key@ != self.slots@[i as int].key@);
                    };
                }
                let ghost r0 = r@;
                r.push(self.slots[i].key.clone());
                proof {
                    assert(r@[r@.len() - 1]@ == k);
                    assert forall|b: int| 0 <= b <= i && !holds_key(allow@, (#[trigger] self.slots@[b]).key@)
                        implies holds_key(r@, self.slots@[b].key@) by {
                        if b < i {
                            assert(holds_key(r0, self.slots@[b].key@));
                            let a = choose|a: int| 0 <= a < r0.len() && (#[trigger] r0[a])@ == self.slots@[b].key@;
                            assert(r@[a] == r0[a]);
                        } else {
                            assert(r@[r@.len() - 1]@ == self.slots@[b].key@);
                        }
                    };
                    assert forall|a: int| 0 <= a < r@.len() implies
                        key_before(self.slots@, (#[trigger] r@[a])@, i + 1) by {
                        if a == r@.len() - 1 {
                            assert(r@[a]@ == self.slots@[i as int].key@);
                        } else {
                            assert(r@[a] == r0[a]);
                            assert(key_before(self.slots@, r0[a]@, i as int));
                            let b = choose|b: int| 0 <= b < i && (#[trigger] self.slots@[b]).key@ == r0[a]@;
                            assert(self.slots@[b].key@ == r@[a]@);
                        }
                    };
                }
            }
            i = i + 1;
        }
        proof {
            assert forall|a: int| 0 <= a < r@.len() implies self@.contains_key((#[trigger] r@[a])@) by {
                assert(key_before(self.slots@, r@[a]@, i as int));
                let b = choose|b: int| 0 <= b < i && (#[trigger] self.slots@[b]).key@ == r@[a]@;
                self.lemma_entry_at(b);
            };
            assert forall|k: Seq<char>| self@.contains_key(k) && !holds_key(allow@, k) implies holds_key(r@, k) by {
                let b = choose|b: int| 0 <= b < self.slots@.len() && (#[trigger] self.slots@[b]).key@ == k;
                assert(!holds_key(allow@, self.slots@[b].key@));
            };
        }
        r
    }
}

/// Whether `list` holds a string equal to `k`.
pub fn list_holds(list: &Vec<String>, k: &String) -> (r: bool)
    ensures
        r == holds_key(list@, k@),
{
    let mut i: usize = 0;
    while i < list.len()
        invariant
            i <= list@.len(),
            forall|j: int| 0 <= j < i ==> (#[trigger] list@[j])@ != k@,
        decreases list@.len() - i,
    {
        if list[i] == *k {
            assert(list@[i as int]@ == k@);
            return true;
        }
        i = i + 1;
    }
    false
}

} // verus!
