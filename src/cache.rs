use vstd::prelude::*;

verus! {

/// Failure to open a dataset: the path is missing or its metadata is corrupt.
#[derive(Clone, Debug, PartialEq, Eq)]
pub struct LoadError {
    pub message: String,
}

/// The predicate that holds of every identifier but `id`.
pub open spec fn other_than(id: Seq<char>) -> spec_fn(Seq<char>) -> bool {
    |k: Seq<char>| k != id
}

/// The resident identifiers after one access of `id`, least recently used
/// first: `id` moves to the most recent end, and if that leaves more than
/// `cap` entries the least recently used one is dropped.
pub open spec fn lru_access(keys: Seq<Seq<char>>, id: Seq<char>, cap: nat) -> Seq<Seq<char>> {
    let moved = keys.filter(other_than(id)).push(id);
    if moved.len() > cap {
        moved.drop_first()
    } else {
        moved
    }
}

/// A capacity-bounded cache from dataset identifiers to loaded handles,
/// ordered by recency of access (least recent first) and evicting the least
/// recently used entry when full.
pub struct OctreeCache<H> {
    capacity: usize,
    entries: Vec<(String, H)>,
    loads: u64,
}

impl<H> View for OctreeCache<H> {
    type V = Seq<(Seq<char>, H)>;

    closed spec fn view(&self) -> Seq<(Seq<char>, H)> {
        self.entries@.map_values(|e: (String, H)| (e.0@, e.1))
    }
}

proof fn lemma_filter_absent(s: Seq<Seq<char>>, x: Seq<char>)
    requires
        !s.contains(x),
    ensures
        s.filter(other_than(x)) == s,
    decreases s.len(),
{
    reveal(Seq::filter);
    if s.len() > 0 {
        assert(!s.drop_last().contains(x)) by {
            if s.drop_last().contains(x) {
                let j = choose|j: int| 0 <= j < s.drop_last().len() && s.drop_last()[j] == x;
                assert(s[j] == x);
            }
        }
        lemma_filter_absent(s.drop_last(), x);
        assert(s.last() != x) by {
            assert(s[s.len() - 1] == s.last());
        }
        assert(s.drop_last().push(s.last()) =~= s);
    }
}

proof fn lemma_filter_is_remove(s: Seq<Seq<char>>, i: int, x: Seq<char>)
    requires
        s.no_duplicates(),
        0 <= i < s.len(),
        s[i] == x,
    ensures
        s.filter(other_than(x)) == s.remove(i),
    decreases s.len(),
{
    reveal(Seq::filter);
    let d = s.drop_last();
    assert(s.last() == s[s.len() - 1]);
    if i == s.len() - 1 {
        assert(!d.contains(x)) by {
            if d.contains(x) {
                let j = choose|j: int| 0 <= j < d.len() && d[j] == x;
                assert(s[j] == s[i]);
            }
        }
        lemma_filter_absent(d, x);
        assert(s.filter(other_than(x)) == d.filter(other_than(x)));
        assert(s.remove(i) =~= d);
    } else {
        assert(d.no_duplicates());
        assert(d[i] == x);
        lemma_filter_is_remove(d, i, x);
        assert(s.last() != x);
        assert(s.filter(other_than(x)) == d.filter(other_than(x)).push(s.last()));
        assert(s.remove(i) =~= d.remove(i).push(s.last()));
    }
}

proof fn lemma_remove_no_duplicates(s: Seq<Seq<char>>, i: int)
    requires
        s.no_duplicates(),
        0 <= i < s.len(),
    ensures
        s.remove(i).no_duplicates(),
        !s.remove(i).contains(s[i]),
{
    let rm = s.remove(i);
    assert forall|a: int, b: int| 0 <= a < rm.len() && 0 <= b < rm.len() && a != b implies rm[a]
        != rm[b] by {
        let a0 = if a < i { a } else { a + 1 };
        let b0 = if b < i { b } else { b + 1 };
        assert(rm[a] == s[a0] && rm[b] == s[b0]);
    }
    if rm.contains(s[i]) {
        let a = choose|a: int| 0 <= a < rm.len() && rm[a] == s[i];
        let a0 = if a < i { a } else { a + 1 };
        assert(rm[a] == s[a0]);
    }
}

/// Removing `x` from a sequence without repeats leaves one without repeats
/// and without `x`.
proof fn lemma_filter_no_duplicates(s: Seq<Seq<char>>, x: Seq<char>)
    requires
        s.no_duplicates(),
    ensures
        s.filter(other_than(x)).no_duplicates(),
        !s.filter(other_than(x)).contains(x),
{
    if s.contains(x) {
        let i = choose|i: int| 0 <= i < s.len() && s[i] == x;
        lemma_filter_is_remove(s, i, x);
        lemma_remove_no_duplicates(s, i);
    } else {
        lemma_filter_absent(s, x);
    }
}

/// The identifiers of `accesses` without repeats, ordered by their last
/// access, most recent last.
pub open spec fn recency_order(accesses: Seq<Seq<char>>) -> Seq<Seq<char>>
    decreases accesses.len(),
{
    if accesses.len() == 0 {
        Seq::empty()
    } else {
        recency_order(accesses.drop_last()).filter(other_than(accesses.last())).push(
            accesses.last(),
        )
    }
}

/// The last `n` elements of `s` (all of it when it is shorter).
pub open spec fn last_n(s: Seq<Seq<char>>, n: nat) -> Seq<Seq<char>> {
    if s.len() > n {
        s.skip(s.len() - n)
    } else {
        s
    }
}

/// The resident identifiers of a cache of capacity `cap` that started empty
/// and then served `accesses`, each of which succeeded.
pub open spec fn replay(accesses: Seq<Seq<char>>, cap: nat) -> Seq<Seq<char>>
    decreases accesses.len(),
{
    if accesses.len() == 0 {
        Seq::empty()
    } else {
        lru_access(replay(accesses.drop_last(), cap), accesses.last(), cap)
    }
}

proof fn lemma_recency_order_no_duplicates(accesses: Seq<Seq<char>>)
    ensures
        recency_order(accesses).no_duplicates(),
    decreases accesses.len(),
{
    if accesses.len() > 0 {
        let x = accesses.last();
        let r = recency_order(accesses.drop_last());
        lemma_recency_order_no_duplicates(accesses.drop_last());
        lemma_filter_no_duplicates(r, x);
        let f = r.filter(other_than(x));
        let fx = f.push(x);
        assert forall|a: int, b: int| 0 <= a < fx.len() && 0 <= b < fx.len() && a != b implies fx[a]
            != fx[b] by {
            if a < f.len() && b == f.len() {
                assert(f.contains(f[a]));
            }
            if b < f.len() && a == f.len() {
                assert(f.contains(f[b]));
            }
        }
    }
}

/// A cache that started empty and served `accesses` holds `replay(accesses,
/// cap)`; one more successful access of `id` moves it to `replay` of the
/// accesses extended by `id`, as `get_or_load` and `insert` state.
pub proof fn lemma_replay_step(accesses: Seq<Seq<char>>, id: Seq<char>, cap: nat)
    ensures
        replay(accesses.push(id), cap) == lru_access(replay(accesses, cap), id, cap),
        replay(Seq::empty(), cap) == Seq::<Seq<char>>::empty(),
{
    assert(accesses.push(id).drop_last() =~= accesses);
}

/// Least-recently-used residency: after any sequence of successful accesses,
/// a cache of capacity `cap` holds at most `cap` identifiers, and they are
/// exactly the `cap` most recently accessed distinct identifiers, in order of
/// their last access.
pub proof fn lemma_resident_are_most_recent(accesses: Seq<Seq<char>>, cap: nat)
    requires
        cap >= 1,
    ensures
        replay(accesses, cap) == last_n(recency_order(accesses), cap),
        replay(accesses, cap).len() <= cap,
    decreases accesses.len(),
{
    reveal(Seq::filter);
    broadcast use vstd::seq_lib::group_filter_ensures;
    if accesses.len() > 0 {
        let prev = accesses.drop_last();
        let x = accesses.last();
        lemma_resident_are_most_recent(prev, cap);
        let r = recency_order(prev);
        lemma_recency_order_no_duplicates(prev);
        let f = r.filter(other_than(x));
        if r.len() <= cap {
            assert(last_n(r, cap) == r);
            if f.push(x).len() > cap {
                assert(f.push(x).skip(f.push(x).len() - cap) =~= f.push(x).drop_first());
            }
        } else {
            let k = r.len() - cap;
            let p = r.take(k);
            let q = r.skip(k);
            assert(r =~= p + q);
            assert(last_n(r, cap) == q);
            Seq::filter_distributes_over_add(p, q, other_than(x));
            assert(f == p.filter(other_than(x)) + q.filter(other_than(x)));
            if q.contains(x) {
                let j = choose|j: int| 0 <= j < q.len() && q[j] == x;
                assert(q.no_duplicates()) by {
                    assert forall|a: int, b: int|
                        0 <= a < q.len() && 0 <= b < q.len() && a != b implies q[a] != q[b] by {
                        assert(q[a] == r[a + k] && q[b] == r[b + k]);
                    }
                }
                lemma_filter_is_remove(q, j, x);
                assert(!p.contains(x)) by {
                    if p.contains(x) {
                        let i = choose|i: int| 0 <= i < p.len() && p[i] == x;
                        assert(r[i] == x && r[j + k] == x);
                    }
                }
                lemma_filter_absent(p, x);
                let g = q.filter(other_than(x)).push(x);
                assert(g.len() == cap);
                assert(f.push(x) =~= p + g);
                assert(f.push(x).skip(f.push(x).len() - cap) =~= g);
            } else {
                lemma_filter_absent(q, x);
                let pf = p.filter(other_than(x));
                assert(f.push(x) =~= pf + q.push(x));
                assert(f.push(x).skip(f.push(x).len() - cap) =~= q.push(x).drop_first());
            }
        }
    }
}

/// Once an access of `id` has succeeded, `id` is resident, so a further
/// access of it is served from the cache without loading: of any number of
/// back-to-back accesses of one cold identifier only the first loads.
pub proof fn lemma_access_makes_resident(keys: Seq<Seq<char>>, id: Seq<char>, cap: nat)
    requires
        cap >= 1,
    ensures
        lru_access(keys, id, cap).contains(id),
        lru_access(keys, id, cap).last() == id,
{
    let r = lru_access(keys, id, cap);
    assert(r[r.len() - 1] == id);
}

impl<H> OctreeCache<H> {
    /// The resident identifiers, least recently used first.
    pub open spec fn keys(&self) -> Seq<Seq<char>> {
        self@.map_values(|e: (Seq<char>, H)| e.0)
    }

    /// The handle held for a resident identifier.
    pub open spec fn handle_of(&self, id: Seq<char>) -> H {
        self@[self.keys().index_of(id)].1
    }

    pub closed spec fn cap(&self) -> nat {
        self.capacity as nat
    }

    /// How many loads have succeeded so far (saturating at `u64::MAX`).
    pub closed spec fn load_total(&self) -> nat {
        self.loads as nat
    }

    pub closed spec fn wf(&self) -> bool {
        &&& 1 <= self.capacity
        &&& self.entries.len() <= self.capacity
        &&& self.keys().no_duplicates()
    }

    /// A well-formed cache holds at least one entry's room, never more
    /// entries than its capacity, and each identifier at most once.
    pub proof fn lemma_wf_bounds(&self)
        requires
            self.wf(),
        ensures
            self.cap() >= 1,
            self@.len() <= self.cap(),
            self.keys().len() == self@.len(),
            self.keys().no_duplicates(),
    {
    }

    /// An empty cache holding at most `capacity` entries; none when `capacity` is zero.
    pub fn new(capacity: usize) -> (r: Option<Self>)
        ensures
            r is Some <==> capacity >= 1,
            r matches Some(c) ==> c.wf() && c.cap() == capacity && c@.len() == 0
                && c.keys() == Seq::<Seq<char>>::empty() && c.load_total() == 0,
    {
        if capacity == 0 {
            None
        } else {
            let c = OctreeCache { capacity, entries: Vec::new(), loads: 0 };
            proof {
                assert(c.keys() =~= Seq::<Seq<char>>::empty());
            }
            Some(c)
        }
    }

    pub fn capacity(&self) -> (r: usize)
        ensures
            r == self.cap(),
    {
        self.capacity
    }

    pub fn len(&self) -> (r: usize)
        ensures
            r == self@.len(),
    {
        self.entries.len()
    }

    /// Number of successful loads so far, saturating at `u64::MAX`.
    pub fn load_count(&self) -> (r: u64)
        ensures
            r == self.load_total(),
    {
        self.loads
    }

    /// The position of `id` among the entries, if it is resident.
    fn position(&self, id: &String) -> (r: Option<usize>)
        ensures
            r matches Some(i) ==> i < self@.len() && self.keys()[i as int] == id@,
            r is None ==> !self.keys().contains(id@),
    {
        let mut i: usize = 0;
        while i < self.entries.len()
            invariant
                i <= self.entries.len(),
                forall|j: int| 0 <= j < i ==> self.keys()[j] != id@,
            decreases self.entries.len() - i,
        {
            if self.entries[i].0 == *id {
                return Some(i);
            }
            i = i + 1;
        }
        None
    }

    /// Whether `id` is resident.
    pub fn contains(&self, id: &String) -> (r: bool)
        ensures
            r == self.keys().contains(id@),
    {
        self.position(id).is_some()
    }

    /// The resident identifiers, least recently used first.
    pub fn resident(&self) -> (r: Vec<String>)
        ensures
            r@.len() == self.keys().len(),
            forall|j: int| 0 <= j < r@.len() ==> #[trigger] r@[j]@ == self.keys()[j],
    {
        let mut r: Vec<String> = Vec::new();
        let mut i: usize = 0;
        while i < self.entries.len()
            invariant
                i <= self.entries.len(),
                r@.len() == i,
                forall|j: int| 0 <= j < i ==> #[trigger] r@[j]@ == self.keys()[j],
            decreases self.entries.len() - i,
        {
            r.push(self.entries[i].0.clone());
            assert(self.keys()[i as int] == self.entries@[i as int].0@);
            i = i + 1;
        }
        r
    }
}

impl<H: Clone> OctreeCache<H> {
    /// Moves the entry at `i` to the most recent end.
    fn refresh(&mut self, i: usize)
        requires
            old(self).wf(),
            i < old(self)@.len(),
        ensures
            final(self).wf(),
            final(self).cap() == old(self).cap(),
            final(self).load_total() == old(self).load_total(),
            final(self)@ == old(self)@.remove(i as int).push(old(self)@[i as int]),
            final(self).keys() == lru_access(old(self).keys(), old(self).keys()[i as int], old(self).cap()),
    {
        let ghost ks = self.keys();
        let e = self.entries.remove(i);
        self.entries.push(e);
        proof {
            assert(self@ =~= old(self)@.remove(i as int).push(old(self)@[i as int]));
            assert(self.keys() =~= ks.remove(i as int).push(ks[i as int]));
            lemma_filter_is_remove(ks, i as int, ks[i as int]);
            assert(self.keys().no_duplicates()) by {
                assert forall|a: int, b: int|
                    0 <= a < self.keys().len() && 0 <= b < self.keys().len() && a != b
                    implies self.keys()[a] != self.keys()[b] by {
                    let rm = ks.remove(i as int);
                    if a < rm.len() && b < rm.len() {
                        let a0 = if a < i { a } else { a + 1 };
                        let b0 = if b < i { b } else { b + 1 };
                        assert(rm[a] == ks[a0] && rm[b] == ks[b0]);
                    } else if a < rm.len() {
                        let a0 = if a < i { a } else { a + 1 };
                        assert(rm[a] == ks[a0]);
                    } else if b < rm.len() {
                        let b0 = if b < i { b } else { b + 1 };
                        assert(rm[b] == ks[b0]);
                    }
                }
            }
        }
    }

    /// Inserts a freshly loaded handle for an identifier that is not resident,
    /// first evicting the least recently used entry if the cache is full.
    fn add_entry(&mut self, id: String, h: H)
        requires
            old(self).wf(),
            !old(self).keys().contains(id@),
        ensures
            final(self).wf(),
            final(self).cap() == old(self).cap(),
            final(self).load_total() == old(self).load_total(),
            final(self).keys() == lru_access(old(self).keys(), id@, old(self).cap()),
            final(self)@.len() > 0,
            final(self)@.last() == (id@, h),
            final(self).keys().last() == id@,
    {
        let ghost ks = self.keys();
        let ghost v0 = self@;
        proof {
            lemma_filter_absent(ks, id@);
        }
        if self.entries.len() == self.capacity {
            let _evicted = self.entries.remove(0);
            self.entries.push((id, h));
            proof {
                assert(self@ =~= v0.remove(0).push((id@, h)));
                assert(self.keys() =~= ks.push(id@).drop_first());
            }
        } else {
            self.entries.push((id, h));
            proof {
                assert(self@ =~= v0.push((id@, h)));
                assert(self.keys() =~= ks.push(id@));
            }
        }
        proof {
            assert(ks.filter(other_than(id@)) == ks);
            assert(self.keys() =~= lru_access(ks, id@, self.capacity as nat));
            let nk = self.keys();
            assert(nk.no_duplicates()) by {
                assert forall|a: int, b: int|
                    0 <= a < nk.len() && 0 <= b < nk.len() && a != b implies nk[a] != nk[b] by {
                    let off: int = if ks.len() == self.capacity { 1 } else { 0 };
                    if a + off < ks.len() {
                        assert(nk[a] == ks[a + off]);
                    }
                    if b + off < ks.len() {
                        assert(nk[b] == ks[b + off]);
                    }
                    if a + off >= ks.len() {
                        assert(nk[a] == id@);
                    }
                    if b + off >= ks.len() {
                        assert(nk[b] == id@);
                    }
                }
            }
        }
    }

    /// Returns the handle for `id`: the resident one, refreshed as most
    /// recently used, or else one obtained from `load`, which is then
    /// inserted (evicting the least recently used entry when full).
    /// A failed load leaves the cache as it was.
    pub fn get_or_load<F: Fn(&String) -> Result<H, LoadError>>(&mut self, id: &String, load: F) -> (r:
        Result<H, LoadError>)
        requires
            old(self).wf(),
            load.requires((id,)),
        ensures
            final(self).wf(),
            final(self).cap() == old(self).cap(),
            old(self).keys().contains(id@) ==> {
                &&& r is Ok
                &&& final(self).keys() == lru_access(old(self).keys(), id@, old(self).cap())
                &&& final(self).load_total() == old(self).load_total()
                &&& final(self).handle_of(id@) == old(self).handle_of(id@)
                &&& cloned(old(self).handle_of(id@), r->Ok_0)
            },
            !old(self).keys().contains(id@) ==> {
                &&& load.ensures((id,), r)
                &&& r is Ok ==> {
                    &&& final(self).keys() == lru_access(old(self).keys(), id@, old(self).cap())
                    &&& final(self).load_total() == if old(self).load_total() < u64::MAX {
                        old(self).load_total() + 1
                    } else {
                        old(self).load_total()
                    }
                    &&& cloned(r->Ok_0, final(self).handle_of(id@))
                }
                &&& r is Err ==> *final(self) == *old(self)
            },
    {
        match self.position(id) {
            Some(i) => {
                let ghost v0 = self@;
                self.refresh(i);
                let n = self.entries.len();
                let h = self.entries[n - 1].1.clone();
                proof {
                    let ks = old(self).keys();
                    assert(ks.index_of(id@) == i as int) by {
                        let j = ks.index_of(id@);
                        assert(ks.contains(id@)) by {
                            assert(ks[i as int] == id@);
                        }
                        assert(ks[j] == ks[i as int]);
                    }
                    self.lemma_last_is_handle(id@);
                }
                Ok(h)
            },
            None => {
                match load(id) {
                    Ok(h) => {
                        let kept = h.clone();
                        self.add_entry(id.clone(), kept);
                        self.loads = self.loads.saturating_add(1);
                        proof {
                            self.lemma_last_is_handle(id@);
                        }
                        Ok(h)
                    },
                    Err(e) => Err(e),
                }
            },
        }
    }

    proof fn lemma_last_is_handle(&self, id: Seq<char>)
        requires
            self.wf(),
            self@.len() > 0,
            self.keys().last() == id,
        ensures
            self.handle_of(id) == self@.last().1,
    {
        let ks = self.keys();
        let n = ks.len() - 1;
        assert(ks[n] == id);
        assert(ks.contains(id));
        let j = ks.index_of(id);
        assert(ks[j] == ks[n]);
    }

    /// Loads `id` into the cache ahead of its first request; fails as
    /// `get_or_load` does.
    pub fn insert<F: Fn(&String) -> Result<H, LoadError>>(&mut self, id: &String, load: F) -> (r:
        Result<(), LoadError>)
        requires
            old(self).wf(),
            load.requires((id,)),
        ensures
            final(self).wf(),
            final(self).cap() == old(self).cap(),
            r is Ok ==> final(self).keys() == lru_access(old(self).keys(), id@, old(self).cap()),
            old(self).keys().contains(id@) ==> r is Ok && final(self).load_total()
                == old(self).load_total(),
            !old(self).keys().contains(id@) ==> {
                &&& r matches Err(e) ==> load.ensures((id,), Err::<H, LoadError>(e))
                &&& r is Ok ==> exists|h: H| #[trigger] load.ensures((id,), Ok::<H, LoadError>(h))
                &&& r is Ok ==> final(self).load_total() == if old(self).load_total() < u64::MAX {
                    old(self).load_total() + 1
                } else {
                    old(self).load_total()
                }
            },
            r is Err ==> *final(self) == *old(self),
    {
        match self.get_or_load(id, load) {
            Ok(h) => {
                proof {
                    if !old(self).keys().contains(id@) {
                        assert(load.ensures((id,), Ok::<H, LoadError>(h)));
                    }
                }
                Ok(())
            },
            Err(e) => Err(e),
        }
    }
}

} // verus!
