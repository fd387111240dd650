use vstd::prelude::*;

verus! {

/// The error returned by `insert` when the key already has a live entry.
#[derive(Debug, Clone, Copy, PartialEq, Eq)]
pub struct DupErr {
    pub key: i32,
}

/// One cell of the backing table.
enum Slot<V> {
    Empty,
    Filled { key: i32, value: V },
    Deleted,
}

/// A hash map implemented with linear probing.
pub struct HashMap<V: Eq + Clone> {
    ht: Vec<Slot<V>>,
    count: usize,
}

/// The home slot of `key` in a table of `cap` slots.
pub open spec fn home(key: i32, cap: int) -> int {
    (#[verifier::truncate] (key as usize)) as int % cap
}

/// The slot `d` steps after `h` on the probe sequence, for `h, d < cap`.
pub open spec fn probe(h: int, d: int, cap: int) -> int {
    if h + d < cap {
        h + d
    } else {
        h + d - cap
    }
}

/// How many steps the probe sequence takes from `h` to reach `j`.
pub open spec fn dist(h: int, j: int, cap: int) -> int {
    if h <= j {
        j - h
    } else {
        j + cap - h
    }
}

/// The capacity after growth: one slot for an unallocated table, otherwise
/// twice as many.
pub open spec fn next_capacity(cap: nat) -> nat {
    if cap == 0 {
        1
    } else {
        2 * cap
    }
}

/// The capacity that an insertion leaves, given how many entries the map
/// held and its capacity before it: a full table grows first.
pub open spec fn grown_capacity(len: nat, cap: nat) -> nat {
    if len == cap {
        next_capacity(cap)
    } else {
        cap
    }
}

/// Slot `j` is live and holds key `k`.
spec fn holds<V>(s: Seq<Slot<V>>, j: int, k: i32) -> bool {
    0 <= j < s.len() && s[j] is Filled && s[j]->key == k
}

/// The entries of a table: each live key with the value of its slot.
spec fn map_of<V>(s: Seq<Slot<V>>) -> Map<i32, V> {
    Map::new(
        |k: i32| exists|j: int| holds(s, j, k),
        |k: i32| s[choose|j: int| holds(s, j, k)]->value,
    )
}

/// The number of live slots.
spec fn filled_count<V>(s: Seq<Slot<V>>) -> nat
    decreases s.len(),
{
    if s.len() == 0 {
        0
    } else {
        filled_count(s.drop_last()) + if s.last() is Filled {
            1nat
        } else {
            0nat
        }
    }
}

/// Slot number `d` of the probe walk for `key` is the first one that is not
/// live: empty or a tombstone, with only live slots before it.
spec fn first_free<V>(s: Seq<Slot<V>>, key: i32, d: int) -> bool {
    let n = s.len() as int;
    let h = home(key, n);
    &&& 0 <= d < n
    &&& !(s[probe(h, d, n)] is Filled)
    &&& forall|e: int| 0 <= e < d ==> #[trigger] s[probe(h, e, n)] is Filled
}

/// No key is live in two slots.
spec fn keys_unique<V>(s: Seq<Slot<V>>) -> bool {
    forall|i: int, j: int|
        #![trigger s[i]->key, s[j]->key]
        0 <= i < s.len() && 0 <= j < s.len() && s[i] is Filled && s[j] is Filled && s[i]->key
            == s[j]->key ==> i == j
}

/// Every slot between the home of the key in slot `j` and `j` is non-empty,
/// so a search for that key never stops before it reaches `j`.
spec fn reachable<V>(s: Seq<Slot<V>>, j: int) -> bool {
    let h = home(s[j]->key, s.len() as int);
    forall|d: int|
        0 <= d < dist(h, j, s.len() as int) ==> !(#[trigger] s[probe(h, d, s.len() as int)] is Empty)
}

/// Every live slot is reachable from its key's home.
spec fn probes_ok<V>(s: Seq<Slot<V>>) -> bool {
    forall|j: int| 0 <= j < s.len() && #[trigger] s[j] is Filled ==> reachable(s, j)
}

impl<V: Eq + Clone> View for HashMap<V> {
    type V = Map<i32, V>;

    closed spec fn view(&self) -> Map<i32, V> {
        map_of(self.ht@)
    }
}

impl<V: Eq + Clone> HashMap<V> {
    /// The number of slots in the backing table.
    pub closed spec fn spec_capacity(&self) -> nat {
        self.ht@.len()
    }

    /// No slot of the table is a tombstone: every slot is live or empty.
    pub closed spec fn no_tombstones(&self) -> bool {
        forall|i: int| 0 <= i < self.ht@.len() ==> !(#[trigger] self.ht@[i] is Deleted)
    }

    /// The table's invariant: unique live keys, every live key reachable
    /// from its home slot, and `count` equal to the number of live slots.
    pub closed spec fn wf(&self) -> bool {
        &&& keys_unique(self.ht@)
        &&& probes_ok(self.ht@)
        &&& self.count == filled_count(self.ht@)
    }

    /// Creates an empty `HashMap`.
    pub fn new() -> (r: HashMap<V>)
        ensures
            r.wf(),
            r.no_tombstones(),
            r@ == Map::<i32, V>::empty(),
            r.spec_capacity() == 0,
    {
        HashMap::with_capacity(0)
    }

    /// Creates an empty `HashMap` with the specified capacity.
    pub fn with_capacity(capacity: usize) -> (r: HashMap<V>)
        ensures
            r.wf(),
            r.no_tombstones(),
            r@ == Map::<i32, V>::empty(),
            r.spec_capacity() == capacity,
    {
        let ht = init_table(capacity);
        proof {
            lemma_count_all_empty(ht@);
        }
        let r = HashMap { ht, count: 0 };
        assert(r@ =~= Map::<i32, V>::empty());
        r
    }

    /// The number of slots in the backing table.
    pub fn capacity(&self) -> (r: usize)
        ensures
            r == self.spec_capacity(),
    {
        self.ht.len()
    }

    /// Returns a reference to the value corresponding to the key, or `None`
    /// if the map does not hold it.
    pub fn find(&self, key: i32) -> (r: Option<&V>)
        requires
            self.wf(),
        ensures
            match r {
                Some(v) => self@.contains_key(key) && *v == self@[key],
                None => !self@.contains_key(key),
            },
    {
        match self.find_index(key) {
            Some(found) => match &self.ht[found] {
                Slot::Filled { value, .. } => Some(value),
                _ => None,
            },
            None => None,
        }
    }

    /// Inserts a key-value pair into the map.
    ///
    /// If the map already holds the key, it returns the error `DupErr` and
    /// leaves the entries as they were. To change the value of a present key
    /// use `put`. A full table grows first, whatever the outcome.
    pub fn insert(&mut self, key: i32, value: V) -> (r: Result<(), DupErr>)
        requires
            old(self).wf(),
            grown_capacity(old(self)@.len(), old(self).spec_capacity()) <= usize::MAX,
        ensures
            final(self).wf(),
            final(self).spec_capacity() >= old(self).spec_capacity(),
            final(self).spec_capacity() == grown_capacity(old(self)@.len(), old(self).spec_capacity()),
            match r {
                Ok(()) => !old(self)@.contains_key(key) && final(self)@ == old(self)@.insert(key, value),
                Err(e) => old(self)@.contains_key(key) && e.key == key && final(self)@ == old(self)@,
            },
    {
        proof {
            lemma_map_len(self.ht@);
            lemma_count_bound(self.ht@);
        }
        if self.count == self.ht.len() {
            self.resize();
        }
        self.insert_inner(key, value)
    }

    /// Updates the value if the key is present in the map, or inserts the new
    /// key-value pair if it is not. On an update the old value is returned,
    /// otherwise `None`.
    pub fn put(&mut self, key: i32, value: V) -> (r: Option<V>)
        requires
            old(self).wf(),
            grown_capacity(old(self)@.len(), old(self).spec_capacity()) <= usize::MAX,
        ensures
            final(self).wf(),
            final(self).spec_capacity() >= old(self).spec_capacity(),
            final(self)@ == old(self)@.insert(key, value),
            match r {
                Some(v) => old(self)@.contains_key(key) && v == old(self)@[key]
                    && final(self).spec_capacity() == old(self).spec_capacity(),
                None => !old(self)@.contains_key(key) && final(self).spec_capacity()
                    == grown_capacity(old(self)@.len(), old(self).spec_capacity()),
            },
    {
        match self.find_index(key) {
            Some(index) => {
                let ghost s = self.ht@;
                let mut slot = Slot::Filled { key, value };
                proof {
                    lemma_write(s, index as int, slot);
                    assert(map_of(s).remove(key).insert(key, value) =~= map_of(s).insert(key, value));
                }
                std::mem::swap(&mut self.ht[index], &mut slot);
                match slot {
                    Slot::Filled { value: previous, .. } => Some(previous),
                    _ => None,
                }
            },
            None => {
                let r = self.insert(key, value);
                assert(r is Ok);
                None
            },
        }
    }

    /// Removes a key from the map, returning its value if the key was
    /// present. The slot becomes a tombstone.
    pub fn remove(&mut self, key: i32) -> (r: Option<V>)
        requires
            old(self).wf(),
        ensures
            final(self).wf(),
            final(self).spec_capacity() == old(self).spec_capacity(),
            match r {
                Some(v) => old(self)@.contains_key(key) && v == old(self)@[key]
                    && final(self)@ == old(self)@.remove(key),
                None => !old(self)@.contains_key(key) && *final(self) == *old(self),
            },
    {
        match self.find_index(key) {
            Some(index) => {
                let ghost s = self.ht@;
                let mut slot = Slot::Deleted;
                proof {
                    lemma_write(s, index as int, slot);
                    lemma_count_bound(s);
                }
                self.count = self.count - 1;
                std::mem::swap(&mut self.ht[index], &mut slot);
                match slot {
                    Slot::Filled { value, .. } => Some(value),
                    _ => None,
                }
            },
            None => None,
        }
    }

    /// Grows the table to `next_capacity` slots and re-inserts every live
    /// entry; tombstones are not carried over.
    fn resize(&mut self)
        requires
            old(self).wf(),
            next_capacity(old(self).ht@.len()) <= usize::MAX,
        ensures
            final(self).wf(),
            final(self).no_tombstones(),
            final(self).ht@.len() == next_capacity(old(self).ht@.len()),
            final(self)@ == old(self)@,
            final(self).count == old(self).count,
    {
        let capacity: usize = if self.ht.len() == 0 {
            1
        } else {
            self.ht.len() * 2
        };
        let mut old_ht = init_table(capacity);
        std::mem::swap(&mut self.ht, &mut old_ht);
        self.count = 0;
        let ghost orig = old_ht@;
        let ghost m = map_of(orig);
        proof {
            lemma_count_all_empty(self.ht@);
            lemma_count_bound(orig);
            assert(map_of(self.ht@) =~= Map::<i32, V>::empty());
        }
        while old_ht.len() > 0
            invariant
                self.wf(),
                self.ht@.len() == capacity,
                keys_unique(orig),
                m == map_of(orig),
                filled_count(orig) <= orig.len(),
                orig.len() < capacity,
                self.no_tombstones(),
                old_ht@.len() <= orig.len(),
                old_ht@ == orig.subrange(0, old_ht@.len() as int),
                self.count + filled_count(old_ht@) == filled_count(orig),
                forall|k: i32|
                    #[trigger] map_of(self.ht@).contains_key(k) <==> exists|j: int|
                        old_ht@.len() <= j < orig.len() && holds(orig, j, k),
                forall|k: i32|
                    #[trigger] map_of(self.ht@).contains_key(k) ==> map_of(self.ht@)[k] == m[k],
            decreases old_ht@.len(),
        {
            let ghost rest = old_ht@;
            match old_ht.pop() {
                Some(Slot::Filled { key, value }) => {
                    let ghost at = old_ht@.len() as int;
                    let ghost before = map_of(self.ht@);
                    proof {
                        assert(orig[at] == rest[at]);
                        assert(holds(orig, at, key));
                        lemma_map_of_at(orig, at);
                        lemma_count_bound(old_ht@);
                        if before.contains_key(key) {
                            let j = choose|j: int| rest.len() <= j < orig.len() && holds(orig, j, key);
                            assert(orig[j]->key == orig[at]->key);
                        }
                    }
                    let r = self.insert_inner(key, value);
                    proof {
                        assert(r is Ok);
                        assert forall|k: i32|
                            #[trigger] map_of(self.ht@).contains_key(k) <==> exists|j: int|
                                old_ht@.len() <= j < orig.len() && holds(orig, j, k) by {
                            if k != key && map_of(self.ht@).contains_key(k) {
                                let j = choose|j: int| rest.len() <= j < orig.len() && holds(orig, j, k);
                                assert(old_ht@.len() <= j < orig.len() && holds(orig, j, k));
                            }
                            if k == key {
                                assert(holds(orig, at, k));
                            }
                            if exists|j: int| old_ht@.len() <= j < orig.len() && holds(orig, j, k) {
                                let j = choose|j: int| old_ht@.len() <= j < orig.len() && holds(orig, j, k);
                                if j != at {
                                    assert(rest.len() <= j < orig.len() && holds(orig, j, k));
                                }
                            }
                        }
                    }
                },
                _ => {
                    proof {
                        let at = old_ht@.len() as int;
                        assert(orig[at] == rest[at]);
                        assert forall|k: i32|
                            #[trigger] map_of(self.ht@).contains_key(k) <==> exists|j: int|
                                old_ht@.len() <= j < orig.len() && holds(orig, j, k) by {
                            if map_of(self.ht@).contains_key(k) {
                                let j = choose|j: int| rest.len() <= j < orig.len() && holds(orig, j, k);
                                assert(old_ht@.len() <= j < orig.len() && holds(orig, j, k));
                            }
                            if exists|j: int| old_ht@.len() <= j < orig.len() && holds(orig, j, k) {
                                let j = choose|j: int| old_ht@.len() <= j < orig.len() && holds(orig, j, k);
                                assert(j != at);
                                assert(rest.len() <= j < orig.len() && holds(orig, j, k));
                            }
                        }
                    }
                },
            }
        }
        proof {
            assert forall|k: i32| #[trigger] map_of(self.ht@).contains_key(k) == m.contains_key(k) by {
                if m.contains_key(k) {
                    let j = choose|j: int| holds(orig, j, k);
                    assert(holds(orig, j, k));
                }
            }
            assert(map_of(self.ht@) =~= m);
        }
    }

    /// Returns `true` if the map holds this key, and `false` otherwise.
    pub fn contains_key(&self, key: i32) -> (r: bool)
        requires
            self.wf(),
        ensures
            r == self@.contains_key(key),
    {
        self.find_index(key).is_some()
    }

    /// The slot that holds `key`, found by walking the probe sequence from
    /// the key's home until the key, an empty slot, or one full pass.
    fn find_index(&self, key: i32) -> (r: Option<usize>)
        requires
            self.wf(),
        ensures
            match r {
                Some(j) => holds(self.ht@, j as int, key) && self@.contains_key(key)
                    && self@[key] == self.ht@[j as int]->value,
                None => !self@.contains_key(key),
            },
    {
        let n = self.ht.len();
        if n == 0 {
            return None;
        }
        let h = self.index(key);
        let mut i = h;
        let mut steps: usize = 0;
        while steps < n
            invariant
                n == self.ht@.len(),
                self.wf(),
                h == home(key, n as int),
                0 <= h < n,
                steps <= n,
                i == probe(h as int, steps as int, n as int),
                forall|d: int|
                    #![trigger self.ht@[probe(h as int, d, n as int)]]
                    0 <= d < steps ==> !(self.ht@[probe(h as int, d, n as int)] is Empty)
                        && !holds(self.ht@, probe(h as int, d, n as int), key),
            decreases n - steps,
        {
            match &self.ht[i] {
                Slot::Empty => {
                    proof {
                        lemma_absent(self.ht@, key, steps as int);
                    }
                    return None;
                },
                Slot::Filled { key: k, .. } => {
                    if *k == key {
                        proof {
                            lemma_map_of_at(self.ht@, i as int);
                        }
                        return Some(i);
                    }
                },
                Slot::Deleted => {},
            }
            i = self.next_index(i);
            steps += 1;
        }
        proof {
            lemma_absent(self.ht@, key, steps as int);
        }
        None
    }

    /// The home slot of `key`.
    fn index(&self, key: i32) -> (r: usize)
        requires
            self.ht@.len() > 0,
        ensures
            r == home(key, self.ht@.len() as int),
            r < self.ht@.len(),
    {
        (#[verifier::truncate] (key as usize)) % self.ht.len()
    }

    /// The slot after `index` on the probe sequence, wrapping at the end.
    fn next_index(&self, index: usize) -> (r: usize)
        requires
            index < self.ht@.len(),
        ensures
            r == probe(index as int, 1, self.ht@.len() as int),
            r < self.ht@.len(),
    {
        if index == self.ht.len() - 1 {
            0
        } else {
            index + 1
        }
    }

    /// Inserts `key` with `value` unless the key is live already. The search
    /// walks the probe sequence from the key's home until an empty slot or
    /// one full pass, rejecting the key if it meets it live; the entry goes
    /// into the first slot on that walk that is empty or a tombstone.
    fn insert_inner(&mut self, key: i32, value: V) -> (r: Result<(), DupErr>)
        requires
            old(self).wf(),
            old(self).count < old(self).ht@.len(),
        ensures
            final(self).wf(),
            final(self).ht@.len() == old(self).ht@.len(),
            match r {
                Ok(()) => {
                    &&& !old(self)@.contains_key(key)
                    &&& final(self)@ == old(self)@.insert(key, value)
                    &&& final(self).count == old(self).count + 1
                    &&& exists|d: int|
                        first_free(old(self).ht@, key, d) && final(self).ht@ == old(self).ht@.update(
                            probe(home(key, old(self).ht@.len() as int), d, old(self).ht@.len() as int),
                            Slot::Filled { key, value },
                        )
                },
                Err(e) => old(self)@.contains_key(key) && e.key == key && *final(self) == *old(self),
            },
    {
        let n = self.ht.len();
        let h = self.index(key);
        let mut i = h;
        let mut steps: usize = 0;
        let mut target: Option<usize> = None;
        let ghost mut td: int = 0;
        while steps < n
            invariant
                n == self.ht@.len(),
                self.wf(),
                self.count < n,
                *self == *old(self),
                h == home(key, n as int),
                0 <= h < n,
                steps <= n,
                i == probe(h as int, steps as int, n as int),
                forall|d: int|
                    #![trigger self.ht@[probe(h as int, d, n as int)]]
                    0 <= d < steps ==> !(self.ht@[probe(h as int, d, n as int)] is Empty)
                        && !holds(self.ht@, probe(h as int, d, n as int), key),
                target is None ==> forall|d: int|
                    #![trigger self.ht@[probe(h as int, d, n as int)]]
                    0 <= d < steps ==> self.ht@[probe(h as int, d, n as int)] is Filled,
                target matches Some(t) ==> {
                    &&& 0 <= td < steps
                    &&& t == probe(h as int, td, n as int)
                    &&& !(self.ht@[t as int] is Filled)
                    &&& forall|d: int|
                        #![trigger self.ht@[probe(h as int, d, n as int)]]
                        0 <= d < td ==> self.ht@[probe(h as int, d, n as int)] is Filled
                },
            decreases n - steps,
        {
            match &self.ht[i] {
                Slot::Empty => {
                    proof {
                        lemma_absent(self.ht@, key, steps as int);
                    }
                    let t = match target {
                        Some(t) => t,
                        None => {
                            proof {
                                td = steps as int;
                            }
                            i
                        },
                    };
                    proof {
                        assert(first_free(old(self).ht@, key, td));
                    }
                    self.put_to_index(t, key, value, Ghost(td));
                    return Ok(());
                },
                Slot::Filled { key: k, .. } => {
                    if *k == key {
                        proof {
                            lemma_map_of_at(self.ht@, i as int);
                        }
                        return Err(DupErr { key });
                    }
                },
                Slot::Deleted => {
                    if target.is_none() {
                        target = Some(i);
                        proof {
                            td = steps as int;
                        }
                    }
                },
            }
            i = self.next_index(i);
            steps += 1;
        }
        proof {
            lemma_absent(self.ht@, key, steps as int);
        }
        match target {
            Some(t) => {
                proof {
                    assert(first_free(old(self).ht@, key, td));
                }
                self.put_to_index(t, key, value, Ghost(td));
            },
            None => {
                proof {
                    lemma_count_bound(self.ht@);
                    let j = choose|j: int| 0 <= j < n && !(#[trigger] self.ht@[j] is Filled);
                    assert(self.ht@[probe(h as int, dist(h as int, j, n as int), n as int)] is Filled);
                }
            },
        }
        Ok(())
    }

    /// Writes a new live entry into slot `index`, which is not live, `td`
    /// steps along the probe sequence of `key`, over live slots only.
    fn put_to_index(&mut self, index: usize, key: i32, value: V, td: Ghost<int>)
        requires
            old(self).wf(),
            old(self).ht@.len() > 0,
            index < old(self).ht@.len(),
            !(old(self).ht@[index as int] is Filled),
            forall|j: int| !holds(old(self).ht@, j, key),
            0 <= td@ < old(self).ht@.len(),
            index == probe(home(key, old(self).ht@.len() as int), td@, old(self).ht@.len() as int),
            forall|d: int|
                #![trigger old(self).ht@[probe(home(key, old(self).ht@.len() as int), d, old(self).ht@.len() as int)]]
                0 <= d < td@ ==> old(self).ht@[probe(
                    home(key, old(self).ht@.len() as int),
                    d,
                    old(self).ht@.len() as int,
                )] is Filled,
        ensures
            final(self).wf(),
            final(self).ht@.len() == old(self).ht@.len(),
            final(self)@ == old(self)@.insert(key, value),
            final(self).count == old(self).count + 1,
            final(self).ht@ == old(self).ht@.update(index as int, Slot::Filled { key, value }),
    {
        let ghost s = self.ht@;
        let ghost x = Slot::Filled { key, value };
        let ghost n = s.len() as int;
        let ghost h = home(key, n);
        proof {
            let t = s.update(index as int, x);
            assert(dist(h, index as int, n) == td@);
            assert forall|d: int| 0 <= d < td@ implies !(#[trigger] t[probe(h, d, n)] is Empty) by {
                assert(s[probe(h, d, n)] is Filled);
            }
            assert(reachable(t, index as int));
            lemma_write(s, index as int, x);
            lemma_count_bound(t);
            assert(!map_of(s).contains_key(key));
            assert(filled_count(t) == filled_count(s) + 1);
            assert(self.count < self.ht.len());
        }
        self.count = self.count + 1;
        self.ht[index] = Slot::Filled { key, value };
    }
}

/// A table of `capacity` slots, all empty.
fn init_table<V>(capacity: usize) -> (r: Vec<Slot<V>>)
    ensures
        r@.len() == capacity,
        forall|i: int| 0 <= i < capacity ==> #[trigger] r@[i] is Empty,
{
    let mut res: Vec<Slot<V>> = Vec::with_capacity(capacity);
    let mut i: usize = 0;
    while i < capacity
        invariant
            i <= capacity,
            res@.len() == i,
            forall|j: int| 0 <= j < i ==> #[trigger] res@[j] is Empty,
        decreases capacity - i,
    {
        res.push(Slot::Empty);
        i += 1;
    }
    res
}

/// A live slot gives its key's entry in the view.
proof fn lemma_map_of_at<V>(s: Seq<Slot<V>>, j: int)
    requires
        keys_unique(s),
        0 <= j < s.len(),
        s[j] is Filled,
    ensures
        map_of(s).contains_key(s[j]->key),
        map_of(s)[s[j]->key] == s[j]->value,
{
    let k = s[j]->key;
    assert(holds(s, j, k));
    let c = choose|i: int| holds(s, i, k);
    assert(s[c]->key == s[j]->key);
}

/// A search that met neither the key nor an empty slot over the first `m`
/// steps from the key's home, and then stopped at an empty slot or after a
/// full pass, proves the key absent.
proof fn lemma_absent<V>(s: Seq<Slot<V>>, key: i32, m: int)
    requires
        probes_ok(s),
        s.len() > 0,
        0 <= m <= s.len(),
        forall|d: int|
            #![trigger s[probe(home(key, s.len() as int), d, s.len() as int)]]
            0 <= d < m ==> !(s[probe(home(key, s.len() as int), d, s.len() as int)] is Empty)
                && !holds(s, probe(home(key, s.len() as int), d, s.len() as int), key),
        m < s.len() ==> s[probe(home(key, s.len() as int), m, s.len() as int)] is Empty,
    ensures
        forall|j: int| !holds(s, j, key),
        !map_of(s).contains_key(key),
{
    let n = s.len() as int;
    let h = home(key, n);
    assert forall|j: int| !holds(s, j, key) by {
        if holds(s, j, key) {
            let dd = dist(h, j, n);
            assert(probe(h, dd, n) == j);
            if dd < m {
                assert(!holds(s, probe(h, dd, n), key));
            } else if dd > m {
                assert(reachable(s, j));
                assert(!(s[probe(h, m, n)] is Empty));
            }
        }
    }
}

/// The view after writing `x` into slot `i`: the key that was live there
/// leaves, and the key that `x` holds, if any, comes in with its value.
proof fn lemma_map_update<V>(s: Seq<Slot<V>>, i: int, x: Slot<V>)
    requires
        keys_unique(s),
        keys_unique(s.update(i, x)),
        0 <= i < s.len(),
    ensures
        map_of(s.update(i, x)) == ({
            let m0 = if s[i] is Filled {
                map_of(s).remove(s[i]->key)
            } else {
                map_of(s)
            };
            if x is Filled {
                m0.insert(x->key, x->value)
            } else {
                m0
            }
        }),
{
    let t = s.update(i, x);
    let m0 = if s[i] is Filled {
        map_of(s).remove(s[i]->key)
    } else {
        map_of(s)
    };
    let m1 = if x is Filled {
        m0.insert(x->key, x->value)
    } else {
        m0
    };
    assert forall|k: i32|
        #[trigger] map_of(t).contains_key(k) == m1.contains_key(k) && (m1.contains_key(k)
            ==> map_of(t)[k] == m1[k]) by {
        if x is Filled && k == x->key {
            lemma_map_of_at(t, i);
        } else {
            if map_of(t).contains_key(k) {
                let j = choose|j: int| holds(t, j, k);
                assert(holds(t, j, k));
                assert(j != i);
                assert(holds(s, j, k));
                lemma_map_of_at(t, j);
                lemma_map_of_at(s, j);
            }
            if m1.contains_key(k) {
                let j = choose|j: int| holds(s, j, k);
                assert(holds(s, j, k));
                assert(j != i);
                assert(holds(t, j, k));
            }
        }
    }
    assert(map_of(t) =~= m1);
}

/// Writing a non-empty slot keeps keys unique and every live key reachable,
/// provided the written key is new elsewhere and reachable where it lands
/// (or replaces the same key in place).
proof fn lemma_write<V>(s: Seq<Slot<V>>, i: int, x: Slot<V>)
    requires
        keys_unique(s),
        probes_ok(s),
        0 <= i < s.len(),
        !(x is Empty),
        x is Filled ==> forall|j: int| j != i ==> !holds(s, j, x->key),
        x is Filled ==> reachable(s.update(i, x), i) || (s[i] is Filled && s[i]->key == x->key),
    ensures
        keys_unique(s.update(i, x)),
        probes_ok(s.update(i, x)),
        map_of(s.update(i, x)) == ({
            let m0 = if s[i] is Filled {
                map_of(s).remove(s[i]->key)
            } else {
                map_of(s)
            };
            if x is Filled {
                m0.insert(x->key, x->value)
            } else {
                m0
            }
        }),
        filled_count(s.update(i, x)) + (if s[i] is Filled { 1int } else { 0int })
            == filled_count(s) + (if x is Filled { 1int } else { 0int }),
{
    let t = s.update(i, x);
    let n = s.len() as int;
    assert forall|a: int, b: int|
        #![trigger t[a]->key, t[b]->key]
        0 <= a < n && 0 <= b < n && t[a] is Filled && t[b] is Filled && t[a]->key == t[b]->key
            implies a == b by {
        if a != i && b != i {
            assert(s[a]->key == s[b]->key);
        } else if a == i && b != i {
            assert(holds(s, b, x->key));
        } else if b == i && a != i {
            assert(holds(s, a, x->key));
        }
    }
    assert forall|j: int| 0 <= j < n && #[trigger] t[j] is Filled implies reachable(t, j) by {
        if j != i {
            assert(reachable(s, j));
            let h = home(t[j]->key, n);
            assert forall|d: int| 0 <= d < dist(h, j, n) implies !(#[trigger] t[probe(h, d, n)] is Empty) by {
                assert(!(s[probe(h, d, n)] is Empty));
            }
        } else if !reachable(t, i) {
            assert(reachable(s, i));
            let h = home(t[j]->key, n);
            assert forall|d: int| 0 <= d < dist(h, j, n) implies !(#[trigger] t[probe(h, d, n)] is Empty) by {
                assert(!(s[probe(h, d, n)] is Empty));
            }
        }
    }
    lemma_map_update(s, i, x);
    lemma_count_update(s, i, x);
}

/// Writing one slot changes the number of live slots by what it removed
/// and what it put.
proof fn lemma_count_update<V>(s: Seq<Slot<V>>, i: int, x: Slot<V>)
    requires
        0 <= i < s.len(),
    ensures
        filled_count(s.update(i, x)) + (if s[i] is Filled { 1int } else { 0int })
            == filled_count(s) + (if x is Filled { 1int } else { 0int }),
    decreases s.len(),
{
    let t = s.update(i, x);
    if i == s.len() - 1 {
        assert(t.drop_last() =~= s.drop_last());
    } else {
        lemma_count_update(s.drop_last(), i, x);
        assert(t.drop_last() =~= s.drop_last().update(i, x));
    }
}

/// There are no more live slots than slots; where there are fewer, some
/// slot is not live; where there are any, some slot is live.
proof fn lemma_count_bound<V>(s: Seq<Slot<V>>)
    ensures
        filled_count(s) <= s.len(),
        filled_count(s) < s.len() ==> exists|j: int| 0 <= j < s.len() && !(#[trigger] s[j] is Filled),
        filled_count(s) > 0 ==> exists|j: int| 0 <= j < s.len() && #[trigger] s[j] is Filled,
    decreases s.len(),
{
    if s.len() > 0 {
        lemma_count_bound(s.drop_last());
        if filled_count(s) < s.len() && s.last() is Filled {
            let j = choose|j: int|
                0 <= j < s.drop_last().len() && !(#[trigger] s.drop_last()[j] is Filled);
            assert(s[j] == s.drop_last()[j]);
        }
        if filled_count(s) > 0 && !(s.last() is Filled) {
            let j = choose|j: int|
                0 <= j < s.drop_last().len() && #[trigger] s.drop_last()[j] is Filled;
            assert(s[j] == s.drop_last()[j]);
        }
    }
}

/// The view of a table with unique keys is finite, with one entry per live
/// slot.
proof fn lemma_map_len<V>(s: Seq<Slot<V>>)
    requires
        keys_unique(s),
    ensures
        map_of(s).dom().finite(),
        map_of(s).len() == filled_count(s),
    decreases filled_count(s),
{
    lemma_count_bound(s);
    if filled_count(s) == 0 {
        assert forall|k: i32| !map_of(s).contains_key(k) by {
            if map_of(s).contains_key(k) {
                let j = choose|j: int| holds(s, j, k);
                assert(holds(s, j, k));
                lemma_count_update(s, j, Slot::Deleted);
            }
        }
        assert(map_of(s).dom() =~= Set::empty());
    } else {
        let i = choose|j: int| 0 <= j < s.len() && #[trigger] s[j] is Filled;
        let t = s.update(i, Slot::Deleted);
        assert forall|a: int, b: int|
            #![trigger t[a]->key, t[b]->key]
            0 <= a < t.len() && 0 <= b < t.len() && t[a] is Filled && t[b] is Filled && t[a]->key
                == t[b]->key implies a == b by {
            assert(s[a]->key == s[b]->key);
        }
        lemma_map_update(s, i, Slot::Deleted);
        lemma_count_update(s, i, Slot::Deleted);
        lemma_map_len(t);
        lemma_map_of_at(s, i);
        assert(map_of(s).dom() =~= map_of(t).dom().insert(s[i]->key));
    }
}

proof fn lemma_count_all_empty<V>(s: Seq<Slot<V>>)
    requires
        forall|i: int| 0 <= i < s.len() ==> #[trigger] s[i] is Empty,
    ensures
        filled_count(s) == 0,
    decreases s.len(),
{
    if s.len() > 0 {
        lemma_count_all_empty(s.drop_last());
    }
}

} // verus!
