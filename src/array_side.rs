//! One side of the dense book: a volume per grid index, and an intrusive doubly-linked list,
//! kept in the side's price order, of the indices whose volume is non-zero.
use vstd::prelude::*;

verus! {

/// Marks the end of the list, and a node that is in no list.
pub const EMPTY: usize = usize::MAX;

/// The largest number of grid levels a side may hold.
pub const MAX_LEVELS: usize = 1_000_000;

/// Whether index `a` is listed before index `b`: higher first on a descending side,
/// lower first on an ascending one.
pub open spec fn precedes(descending: bool, a: usize, b: usize) -> bool {
    if descending {
        a > b
    } else {
        a < b
    }
}

/// `s` is strictly ordered by `precedes`.
pub open spec fn sorted_by(descending: bool, s: Seq<usize>) -> bool {
    forall|i: int, j: int| 0 <= i < j < s.len() ==> precedes(descending, #[trigger] s[i], #[trigger] s[j])
}

/// The indices below `n` whose volume is non-zero, lowest first.
pub open spec fn present_ascending(vols: Seq<u64>, n: nat) -> Seq<usize>
    decreases n,
{
    if n == 0 {
        Seq::empty()
    } else {
        let p = present_ascending(vols, (n - 1) as nat);
        if vols[n - 1] > 0 {
            p.push((n - 1) as usize)
        } else {
            p
        }
    }
}

/// The levels that a side of the given order lists for the given volumes: each index of
/// non-zero volume once, with its volume, highest index first on a descending side and
/// lowest first on an ascending one.
pub open spec fn levels_of(vols: Seq<u64>, descending: bool) -> Seq<(usize, u64)> {
    let up = present_ascending(vols, vols.len());
    let idx = if descending {
        up.reverse()
    } else {
        up
    };
    idx.map_values(|i: usize| (i, vols[i as int]))
}

proof fn lemma_present_ascending(vols: Seq<u64>, n: nat)
    requires
        n <= vols.len(),
        vols.len() <= MAX_LEVELS,
    ensures
        sorted_by(false, present_ascending(vols, n)),
        forall|x: usize| #[trigger] present_ascending(vols, n).contains(x) <==> (x < n && vols[x as int] > 0),
    decreases n,
{
    if n > 0 {
        lemma_present_ascending(vols, (n - 1) as nat);
        let p = present_ascending(vols, (n - 1) as nat);
        let last = (n - 1) as usize;
        if vols[n - 1] > 0 {
            let q = p.push(last);
            assert forall|i: int, j: int| 0 <= i < j < q.len() implies precedes(false, #[trigger] q[i], #[trigger] q[j]) by {
                if j == q.len() - 1 {
                    assert(p.contains(q[i]));
                }
            }
            assert forall|x: usize| #[trigger] q.contains(x) <==> (x < n && vols[x as int] > 0) by {
                if x < n && vols[x as int] > 0 && x != last {
                    assert(p.contains(x));
                    let k = p.lemma_contains_to_index(x);
                    assert(q[k] == x);
                }
                if q.contains(x) && x != last {
                    let k = q.lemma_contains_to_index(x);
                    assert(p[k] == x);
                    assert(p.contains(x));
                }
                if x == last {
                    assert(q[q.len() - 1] == x);
                }
            }
        }
    }
}

pub struct OrderBookSide {
    volumes: Vec<u64>,
    next: Vec<usize>,
    prev: Vec<usize>,
    head: usize,
    is_descending: bool,
    order: Ghost<Seq<usize>>,
}

impl View for OrderBookSide {
    type V = Seq<(usize, u64)>;

    /// The present levels, as (index, volume), in list order.
    closed spec fn view(&self) -> Seq<(usize, u64)> {
        self.order@.map_values(|i: usize| (i, self.volumes@[i as int]))
    }
}

impl OrderBookSide {
    /// The indices of the present levels, in list order.
    pub closed spec fn indices(&self) -> Seq<usize> {
        self.order@
    }

    /// The volume held at grid index `i`.
    pub closed spec fn volume(&self, i: int) -> u64 {
        self.volumes@[i]
    }

    pub closed spec fn capacity(&self) -> nat {
        self.volumes@.len()
    }

    pub closed spec fn descending(&self) -> bool {
        self.is_descending
    }

    /// Arrays, list order and links agree.
    closed spec fn shape_ok(&self) -> bool {
        let s = self.order@;
        &&& self.next@.len() == self.volumes@.len()
        &&& self.prev@.len() == self.volumes@.len()
        &&& self.volumes@.len() <= MAX_LEVELS
        &&& forall|k: int| 0 <= k < s.len() ==> #[trigger] s[k] < self.volumes@.len()
        &&& sorted_by(self.is_descending, s)
        &&& self.head == (if s.len() == 0 { EMPTY } else { s[0] })
        &&& forall|k: int|
            0 <= k < s.len() ==> self.next@[#[trigger] s[k] as int] == (if k + 1 < s.len() {
                s[k + 1]
            } else {
                EMPTY
            })
        &&& forall|k: int|
            0 <= k < s.len() ==> self.prev@[#[trigger] s[k] as int] == (if k > 0 {
                s[k - 1]
            } else {
                EMPTY
            })
    }

    /// The list holds exactly the indices of non-zero volume; other nodes are unlinked.
    pub closed spec fn wf(&self) -> bool {
        let s = self.order@;
        &&& self.shape_ok()
        &&& forall|k: int| 0 <= k < s.len() ==> self.volumes@[#[trigger] s[k] as int] > 0
        &&& forall|i: int| 0 <= i < self.volumes@.len() && self.volumes@[i] > 0 ==> s.contains(i as usize)
        &&& forall|i: int|
            0 <= i < self.volumes@.len() && #[trigger] self.volumes@[i] == 0 ==> self.next@[i] == EMPTY
                && self.prev@[i] == EMPTY
    }

    /// Well formed but for `index`, whose volume has just become non-zero and which is not
    /// linked yet.
    closed spec fn pending(&self, index: usize) -> bool {
        let s = self.order@;
        &&& self.shape_ok()
        &&& index < self.volumes@.len()
        &&& self.volumes@[index as int] > 0
        &&& !s.contains(index)
        &&& self.next@[index as int] == EMPTY
        &&& self.prev@[index as int] == EMPTY
        &&& forall|k: int| 0 <= k < s.len() ==> self.volumes@[#[trigger] s[k] as int] > 0
        &&& forall|i: int|
            0 <= i < self.volumes@.len() && self.volumes@[i] > 0 && i != index ==> s.contains(i as usize)
        &&& forall|i: int|
            0 <= i < self.volumes@.len() && #[trigger] self.volumes@[i] == 0 ==> self.next@[i] == EMPTY
                && self.prev@[i] == EMPTY
    }

    /// The view lists the indices in order, each with its volume; a well-formed side lists
    /// only indices of its grid.
    pub proof fn lemma_view(&self)
        ensures
            self.wf() ==> forall|k: int| 0 <= k < self.indices().len() ==> #[trigger] self.indices()[k] < self.capacity(),
            self@.len() == self.indices().len(),
            forall|k: int|
                0 <= k < self@.len() ==> #[trigger] self@[k] == (
                    self.indices()[k],
                    self.volume(self.indices()[k] as int),
                ),
    {
    }

    /// A well-formed side lists every index of non-zero volume and no other, each once, in
    /// the side's order.
    pub proof fn lemma_present_iff_listed(&self, i: usize)
        requires
            self.wf(),
            i < self.capacity(),
        ensures
            self.volume(i as int) > 0 <==> self.indices().contains(i),
            sorted_by(self.descending(), self.indices()),
    {
        if self.indices().contains(i) {
            let k = self.order@.lemma_contains_to_index(i);
            assert(self.volumes@[self.order@[k] as int] > 0);
        }
    }

    /// An empty side of capacity zero; `init` sizes it.
    pub fn new(is_descending: bool) -> (r: Self)
        ensures
            r.wf(),
            r.capacity() == 0,
            r.volume_seq().len() == 0,
            r@.len() == 0,
            r.descending() == is_descending,
    {
        OrderBookSide {
            volumes: Vec::new(),
            next: Vec::new(),
            prev: Vec::new(),
            head: EMPTY,
            is_descending,
            order: Ghost(Seq::empty()),
        }
    }

    /// Allocates `capacity` grid levels, all empty.
    pub fn init(&mut self, capacity: usize)
        requires
            capacity <= MAX_LEVELS,
        ensures
            final(self).wf(),
            final(self).capacity() == capacity,
            final(self).volume_seq() == Seq::new(capacity as nat, |i: int| 0u64),
            final(self)@.len() == 0,
            final(self).descending() == old(self).descending(),
    {
        self.volumes = vec![0u64; capacity];
        self.next = vec![EMPTY; capacity];
        self.prev = vec![EMPTY; capacity];
        self.head = EMPTY;
        self.order = Ghost(Seq::empty());
    }

    /// The last listed index.
    fn last_index(&self) -> (t: usize)
        requires
            self.shape_ok(),
            self.indices().len() > 0,
        ensures
            t == self.indices().last(),
    {
        let ghost s = self.order@;
        let mut current = self.head;
        let ghost mut k: int = 0;
        while self.next[current] != EMPTY
            invariant
                self.shape_ok(),
                s == self.order@,
                0 <= k < s.len(),
                current == s[k],
            decreases s.len() - k,
        {
            current = self.next[current];
            proof {
                k = k + 1;
            }
        }
        proof {
            if k + 1 < s.len() {
                assert(s[k + 1] < self.volumes@.len());
            }
        }
        current
    }

    /// Links `index` just before the listed `current`, which sits at position `k`.
    #[verifier::rlimit(60)]
    fn link_before(&mut self, index: usize, current: usize, k: Ghost<int>)
        requires
            old(self).pending(index),
            0 <= k@ < old(self).order@.len(),
            old(self).order@[k@] == current,
            precedes(old(self).is_descending, index, current),
            forall|j: int| 0 <= j < k@ ==> precedes(old(self).is_descending, #[trigger] old(self).order@[j], index),
        ensures
            final(self).shape_ok(),
            final(self).volumes == old(self).volumes,
            final(self).is_descending == old(self).is_descending,
            final(self).order@ == old(self).order@.insert(k@, index),
            forall|i: int|
                0 <= i < final(self).volumes@.len() && i != index && final(self).volumes@[i] == 0
                    ==> final(self).next@[i] == EMPTY && final(self).prev@[i] == EMPTY,
    {
        let ghost s = self.order@;
        let ghost desc = self.is_descending;
        let ghost k = k@;
        let ghost ns = s.insert(k, index);
        proof {
            s.insert_ensures(k, index);
        }
        let p = self.prev[current];
        self.next.set(index, current);
        if p != EMPTY {
            self.next.set(p, index);
            self.prev.set(index, p);
        } else {
            self.head = index;
        }
        self.prev.set(current, index);
        self.order = Ghost(ns);
        proof {
            assert(k > 0 ==> p == s[k - 1]);
            assert(k == 0 ==> p == EMPTY);
            assert forall|j: int| 0 <= j < s.len() implies s[j] != index by {
                if s[j] == index {
                    assert(s.contains(index));
                }
            }
            assert forall|i: int, j: int|
                0 <= i < j < ns.len() implies precedes(desc, #[trigger] ns[i], #[trigger] ns[j]) by {
                if i < k && j > k {
                    assert(precedes(desc, s[i], s[j - 1]));
                } else if i == k && j > k {
                    assert(j - 1 == k || precedes(desc, s[k], s[j - 1]));
                } else if i > k {
                    assert(precedes(desc, s[i - 1], s[j - 1]));
                } else if j < k {
                    assert(precedes(desc, s[i], s[j]));
                }
            }
            assert forall|m: int| 0 <= m < ns.len() implies self.next@[#[trigger] ns[m] as int] == (
                if m + 1 < ns.len() {
                    ns[m + 1]
                } else {
                    EMPTY
                }) by {
                if m < k - 1 {
                    assert(precedes(desc, s[m], s[k - 1]));
                } else if m > k {
                    assert(precedes(desc, s[k], s[m - 1]) || m - 1 == k);
                    assert(k == 0 || precedes(desc, s[k - 1], s[m - 1]));
                }
            }
            assert forall|m: int| 0 <= m < ns.len() implies self.prev@[#[trigger] ns[m] as int] == (
                if m > 0 {
                    ns[m - 1]
                } else {
                    EMPTY
                }) by {
                if m < k {
                    assert(precedes(desc, s[m], s[k]));
                    assert(m == k - 1 || precedes(desc, s[m], s[k - 1]));
                } else if m > k + 1 {
                    assert(precedes(desc, s[k], s[m - 1]));
                }
            }
            assert forall|i: int|
                0 <= i < self.volumes@.len() && i != index && self.volumes@[i] == 0 implies
                self.next@[i] == EMPTY && self.prev@[i] == EMPTY by {
                if k > 0 {
                    assert(self.volumes@[s[k - 1] as int] > 0);
                }
                assert(self.volumes@[s[k] as int] > 0);
            }
        }
    }

    /// Links `index` after the last listed index; every listed index precedes it.
    fn append(&mut self, index: usize)
        requires
            old(self).pending(index),
            old(self).order@.len() > 0,
            forall|j: int| 0 <= j < old(self).order@.len() ==> precedes(old(self).is_descending, #[trigger] old(self).order@[j], index),
        ensures
            final(self).shape_ok(),
            final(self).volumes == old(self).volumes,
            final(self).is_descending == old(self).is_descending,
            final(self).order@ == old(self).order@.insert(old(self).order@.len() as int, index),
            forall|i: int|
                0 <= i < final(self).volumes@.len() && i != index && final(self).volumes@[i] == 0
                    ==> final(self).next@[i] == EMPTY && final(self).prev@[i] == EMPTY,
    {
        let ghost s = self.order@;
        let ghost desc = self.is_descending;
        let t = self.last_index();
        let ghost ns = s.push(index);
        self.next.set(t, index);
        self.prev.set(index, t);
        self.order = Ghost(ns);
        proof {
            assert(ns =~= s.insert(s.len() as int, index));
            assert forall|j: int| 0 <= j < s.len() implies s[j] != index by {
                if s[j] == index {
                    assert(s.contains(index));
                }
            }
            assert forall|i: int, j: int|
                0 <= i < j < ns.len() implies precedes(desc, #[trigger] ns[i], #[trigger] ns[j]) by {
                if j < s.len() {
                    assert(precedes(desc, s[i], s[j]));
                }
            }
            assert forall|m: int| 0 <= m < ns.len() implies self.next@[#[trigger] ns[m] as int] == (
                if m + 1 < ns.len() {
                    ns[m + 1]
                } else {
                    EMPTY
                }) by {
                if m < s.len() - 1 {
                    assert(precedes(desc, s[m], s[s.len() - 1]));
                }
            }
            assert forall|m: int| 0 <= m < ns.len() implies self.prev@[#[trigger] ns[m] as int] == (
                if m > 0 {
                    ns[m - 1]
                } else {
                    EMPTY
                }) by {
                if m < s.len() - 1 {
                    assert(precedes(desc, s[m], s[s.len() - 1]));
                }
            }
            assert forall|i: int|
                0 <= i < self.volumes@.len() && i != index && self.volumes@[i] == 0 implies
                self.next@[i] == EMPTY && self.prev@[i] == EMPTY by {
                assert(self.volumes@[s[s.len() - 1] as int] > 0);
            }
        }
    }

    /// Links `index`, whose volume is already set, into the list at its place in the side's
    /// order: before the first listed index it precedes, or after the last.
    fn insert(&mut self, index: usize)
        requires
            old(self).pending(index),
        ensures
            final(self).wf(),
            final(self).volumes == old(self).volumes,
            final(self).is_descending == old(self).is_descending,
            exists|pos: int|
                0 <= pos <= old(self).order@.len() && final(self).order@ == old(self).order@.insert(
                    pos,
                    index,
                ),
    {
        let ghost s = self.order@;
        self.link(index);
        proof {
            let ns = self.order@;
            let pos = choose|pos: int| 0 <= pos <= s.len() && ns == s.insert(pos, index);
            s.insert_ensures(pos, index);
            assert forall|m: int| 0 <= m < ns.len() implies self.volumes@[#[trigger] ns[m] as int] > 0 by {
                if m < pos {
                    assert(old(self).volumes@[s[m] as int] > 0);
                } else if m > pos {
                    assert(old(self).volumes@[s[m - 1] as int] > 0);
                }
            }
            assert forall|i: int| 0 <= i < self.volumes@.len() && self.volumes@[i] > 0 implies ns.contains(
                i as usize,
            ) by {
                if i == index {
                    assert(ns[pos] == index);
                } else {
                    assert(s.contains(i as usize));
                    let m = s.lemma_contains_to_index(i as usize);
                    if m < pos {
                        assert(ns[m] == i);
                    } else {
                        assert(ns[m + 1] == i);
                    }
                }
            }
        }
    }

    /// The linking step of `insert`.
    fn link(&mut self, index: usize)
        requires
            old(self).pending(index),
        ensures
            final(self).shape_ok(),
            final(self).volumes == old(self).volumes,
            final(self).is_descending == old(self).is_descending,
            exists|pos: int|
                0 <= pos <= old(self).order@.len() && final(self).order@ == old(self).order@.insert(
                    pos,
                    index,
                ),
            forall|i: int|
                0 <= i < final(self).volumes@.len() && i != index && final(self).volumes@[i] == 0
                    ==> final(self).next@[i] == EMPTY && final(self).prev@[i] == EMPTY,
    {
        let ghost s = self.order@;
        let ghost desc = self.is_descending;
        if self.head == EMPTY {
            self.head = index;
            self.order = Ghost(Seq::empty().push(index));
            proof {
                assert(self.order@ =~= s.insert(0, index));
            }
            return;
        }
        let mut current = self.head;
        let ghost mut k: int = 0;
        while current != EMPTY
            invariant
                self.pending(index),
                s == self.order@,
                desc == self.is_descending,
                *self == *old(self),
                0 <= k <= s.len(),
                current == (if k < s.len() { s[k] } else { EMPTY }),
                forall|j: int| 0 <= j < k ==> precedes(desc, #[trigger] s[j], index),
            decreases s.len() - k,
        {
            proof {
                if k == s.len() {
                    assert(s.len() > 0);
                }
            }
            if (self.is_descending && index > current) || (!self.is_descending && index < current) {
                self.link_before(index, current, Ghost(k));
                return;
            }
            current = self.next[current];
            proof {
                k = k + 1;
            }
        }
        self.append(index);
    }

    /// Unlinks the listed `index`, patching its neighbours and the head.
    #[verifier::rlimit(60)]
    fn remove(&mut self, index: usize)
        requires
            old(self).wf(),
            index < old(self).capacity(),
            old(self).volume(index as int) > 0,
        ensures
            final(self).shape_ok(),
            final(self).volumes == old(self).volumes,
            final(self).is_descending == old(self).is_descending,
            exists|k: int|
                0 <= k < old(self).order@.len() && old(self).order@[k] == index
                    && final(self).order@ == old(self).order@.remove(k),
            final(self).next@[index as int] == EMPTY,
            final(self).prev@[index as int] == EMPTY,
            forall|i: int|
                0 <= i < final(self).volumes@.len() && final(self).volumes@[i] == 0
                    ==> final(self).next@[i] == EMPTY && final(self).prev@[i] == EMPTY,
    {
        let ghost s = self.order@;
        let ghost desc = self.is_descending;
        assert(s.contains(index));
        let ghost k = s.lemma_contains_to_index(index);
        let ghost ns = s.remove(k);
        proof {
            s.remove_ensures(k);
        }
        let p = self.prev[index];
        let n = self.next[index];
        if p != EMPTY {
            self.next.set(p, n);
        } else {
            self.head = n;
        }
        if n != EMPTY {
            self.prev.set(n, p);
        }
        self.next.set(index, EMPTY);
        self.prev.set(index, EMPTY);
        self.order = Ghost(ns);
        proof {
            assert(k > 0 ==> p == s[k - 1]);
            assert(k == 0 ==> p == EMPTY);
            assert(k + 1 < s.len() ==> n == s[k + 1]);
            assert(k + 1 >= s.len() ==> n == EMPTY);
            assert forall|i: int, j: int|
                0 <= i < j < ns.len() implies precedes(desc, #[trigger] ns[i], #[trigger] ns[j]) by {
                if i < k && j >= k {
                    assert(precedes(desc, s[i], s[j + 1]));
                } else if i >= k {
                    assert(precedes(desc, s[i + 1], s[j + 1]));
                } else {
                    assert(precedes(desc, s[i], s[j]));
                }
            }
            assert forall|m: int| 0 <= m < ns.len() implies self.next@[#[trigger] ns[m] as int] == (
                if m + 1 < ns.len() {
                    ns[m + 1]
                } else {
                    EMPTY
                }) by {
                if m < k - 1 {
                    assert(precedes(desc, s[m], s[k - 1]));
                    assert(precedes(desc, s[m], s[k]));
                } else if m == k - 1 {
                    assert(precedes(desc, s[m], s[k]));
                } else {
                    assert(precedes(desc, s[k], s[m + 1]));
                    assert(k == 0 || precedes(desc, s[k - 1], s[m + 1]));
                }
            }
            assert forall|m: int| 0 <= m < ns.len() implies self.prev@[#[trigger] ns[m] as int] == (
                if m > 0 {
                    ns[m - 1]
                } else {
                    EMPTY
                }) by {
                if m < k {
                    assert(precedes(desc, s[m], s[k]));
                    assert(k + 1 >= s.len() || precedes(desc, s[m], s[k + 1]));
                } else if m == k {
                    assert(precedes(desc, s[k], s[m + 1]));
                } else {
                    assert(precedes(desc, s[k], s[m + 1]));
                    assert(precedes(desc, s[k + 1], s[m + 1]));
                }
            }
            assert forall|i: int|
                0 <= i < self.volumes@.len() && self.volumes@[i] == 0 implies
                self.next@[i] == EMPTY && self.prev@[i] == EMPTY by {
                if k > 0 {
                    assert(self.volumes@[s[k - 1] as int] > 0);
                }
                if k + 1 < s.len() {
                    assert(self.volumes@[s[k + 1] as int] > 0);
                }
            }
        }
    }

    /// The volumes of all grid levels.
    pub closed spec fn volume_seq(&self) -> Seq<u64> {
        self.volumes@
    }

    /// Unlinks a present level and zeroes its volume.
    #[verifier::rlimit(60)]
    fn drop_level(&mut self, index: usize)
        requires
            old(self).wf(),
            index < old(self).capacity(),
            old(self).volume(index as int) > 0,
        ensures
            final(self).wf(),
            final(self).volumes@ == old(self).volumes@.update(index as int, 0),
            final(self).is_descending == old(self).is_descending,
            exists|k: int|
                0 <= k < old(self).order@.len() && old(self).order@[k] == index
                    && final(self).order@ == old(self).order@.remove(k),
    {
        let ghost s = self.order@;
        let ghost desc = self.is_descending;
        self.remove(index);
        self.volumes.set(index, 0);
        proof {
            let ns = self.order@;
            let k = choose|k: int| 0 <= k < s.len() && s[k] == index && ns == s.remove(k);
            s.remove_ensures(k);
            assert forall|m: int| 0 <= m < ns.len() implies self.volumes@[#[trigger] ns[m] as int] > 0 by {
                if m < k {
                    assert(precedes(desc, s[m], s[k]));
                    assert(old(self).volumes@[s[m] as int] > 0);
                } else {
                    assert(precedes(desc, s[k], s[m + 1]));
                    assert(old(self).volumes@[s[m + 1] as int] > 0);
                }
            }
            assert forall|i: int| 0 <= i < self.volumes@.len() && self.volumes@[i] > 0 implies ns.contains(
                i as usize,
            ) by {
                assert(s.contains(i as usize));
                let m = s.lemma_contains_to_index(i as usize);
                if m < k {
                    assert(ns[m] == i);
                } else {
                    assert(m != k);
                    assert(ns[m - 1] == i);
                }
            }
            assert forall|i: int| 0 <= i < self.volumes@.len() && #[trigger] self.volumes@[i] == 0 implies
                self.next@[i] == EMPTY && self.prev@[i] == EMPTY by {
                if i != index {
                    assert(old(self).volumes@[i] == 0);
                }
            }
        }
    }

    /// Sets the volume at `index`: a level that becomes non-zero is linked at its place in
    /// the side's order, one that becomes zero is unlinked, and any other change touches the
    /// volume alone.
    pub fn update(&mut self, index: usize, qty: u64)
        requires
            old(self).wf(),
            index < old(self).capacity(),
        ensures
            final(self).wf(),
            final(self).volume_seq() == old(self).volume_seq().update(index as int, qty),
            final(self)@ == levels_of(old(self).volume_seq().update(index as int, qty), old(self).descending()),
            final(self).capacity() == old(self).capacity(),
            final(self).descending() == old(self).descending(),
    {
        let prev_qty = self.volumes[index];
        if prev_qty == 0 && qty > 0 {
            self.volumes.set(index, qty);
            proof {
                let s = self.order@;
                if s.contains(index) {
                    let k = s.lemma_contains_to_index(index);
                    assert(old(self).volumes@[s[k] as int] > 0);
                }
                assert(old(self).volumes@[index as int] == 0);
                assert forall|k: int| 0 <= k < s.len() implies self.volumes@[#[trigger] s[k] as int] > 0 by {
                    assert(old(self).volumes@[s[k] as int] > 0);
                }
                assert forall|i: int| 0 <= i < self.volumes@.len() && #[trigger] self.volumes@[i] == 0 implies
                    self.next@[i] == EMPTY && self.prev@[i] == EMPTY by {
                    assert(old(self).volumes@[i] == 0);
                }
                assert forall|i: int| 0 <= i < self.volumes@.len() && self.volumes@[i] > 0 && i != index implies
                    s.contains(i as usize) by {
                    assert(old(self).volumes@[i] > 0);
                }
            }
            self.insert(index);
        } else if prev_qty > 0 && qty == 0 {
            self.drop_level(index);
        } else {
            self.volumes.set(index, qty);
            proof {
                let s = self.order@;
                assert forall|m: int| 0 <= m < s.len() implies self.volumes@[#[trigger] s[m] as int] > 0 by {
                    assert(old(self).volumes@[s[m] as int] > 0);
                }
                assert forall|i: int| 0 <= i < self.volumes@.len() && #[trigger] self.volumes@[i] == 0 implies
                    self.next@[i] == EMPTY && self.prev@[i] == EMPTY by {
                    assert(old(self).volumes@[i] == 0);
                }
            }
        }
        proof {
            self.lemma_levels_of();
        }
    }

    /// The present levels, as (index, volume), in the side's order.
    pub fn levels(&self) -> (r: Vec<(usize, u64)>)
        requires
            self.wf(),
        ensures
            r@ == self@,
    {
        let ghost s = self.order@;
        let mut levels: Vec<(usize, u64)> = Vec::new();
        let mut current = self.head;
        let ghost mut k: int = 0;
        while current != EMPTY
            invariant
                self.wf(),
                s == self.order@,
                0 <= k <= s.len(),
                current == (if k < s.len() { s[k] } else { EMPTY }),
                levels@ == self@.subrange(0, k),
            decreases s.len() - k,
        {
            proof {
                if k == s.len() {
                    assert(s.len() > 0);
                }
            }
            levels.push((current, self.volumes[current]));
            current = self.next[current];
            proof {
                assert(self@.subrange(0, k + 1) =~= self@.subrange(0, k).push(self@[k]));
                k = k + 1;
                if k < s.len() {
                    assert(s[k] < self.volumes@.len());
                }
            }
        }
        proof {
            if k < s.len() {
                assert(s[k] < self.volumes@.len());
            }
            assert(self@.subrange(0, k) =~= self@);
        }
        levels
    }

    /// The first level in the side's order, if any.
    pub fn head(&self) -> (r: Option<(usize, u64)>)
        requires
            self.wf(),
        ensures
            r == (if self@.len() == 0 { None } else { Some(self@[0]) }),
    {
        if self.head != EMPTY {
            Some((self.head, self.volumes[self.head]))
        } else {
            None
        }
    }

    /// The last level in the side's order, if any.
    pub fn tail(&self) -> (r: Option<(usize, u64)>)
        requires
            self.wf(),
        ensures
            r == (if self@.len() == 0 { None } else { Some(self@.last()) }),
    {
        if self.head == EMPTY {
            None
        } else {
            let current = self.last_index();
            Some((current, self.volumes[current]))
        }
    }

    /// Unlinks every level and zeroes its volume; the capacity stays.
    pub fn clear(&mut self)
        requires
            old(self).wf(),
        ensures
            final(self).wf(),
            final(self)@.len() == 0,
            forall|i: int| 0 <= i < final(self).capacity() ==> final(self).volume(i) == 0,
            final(self).volume_seq() == Seq::new(old(self).capacity(), |i: int| 0u64),
            final(self).capacity() == old(self).capacity(),
            final(self).descending() == old(self).descending(),
    {
        let mut current = self.head;
        while current != EMPTY
            invariant
                self.wf(),
                self.capacity() == old(self).capacity(),
                self.descending() == old(self).descending(),
                current == (if self.order@.len() == 0 { EMPTY } else { self.order@[0] }),
            decreases self.order@.len(),
        {
            let ghost s = self.order@;
            assert(self.volumes@[s[0] as int] > 0);
            let next = self.next[current];
            self.drop_level(current);
            proof {
                let ns = self.order@;
                let k = choose|k: int| 0 <= k < s.len() && s[k] == current && ns == s.remove(k);
                s.remove_ensures(k);
                assert(k == 0) by {
                    if k > 0 {
                        assert(precedes(self.is_descending, s[0], s[k]));
                    }
                }
                if s.len() > 1 {
                    assert(ns[0] == s[1]);
                }
                assert(ns.len() == s.len() - 1);
            }
            current = next;
        }
        proof {
            assert forall|i: int| 0 <= i < self.capacity() implies self.volume(i) == 0 by {
                if self.volumes@[i] > 0 {
                    assert(self.order@.contains(i as usize));
                }
            }
            assert(self.volumes@ =~= Seq::new(old(self).capacity(), |i: int| 0u64));
        }
    }

    /// The listed levels run strictly in the side's order, each with a non-zero volume.
    pub proof fn lemma_levels_ordered(&self)
        requires
            self.wf(),
        ensures
            forall|i: int, j: int|
                0 <= i < j < self@.len() ==> precedes(self.descending(), #[trigger] self@[i].0, #[trigger] self@[j].0),
            forall|i: int| 0 <= i < self@.len() ==> #[trigger] self@[i].1 > 0,
    {
        assert forall|i: int, j: int| 0 <= i < j < self@.len() implies precedes(
            self.descending(),
            #[trigger] self@[i].0,
            #[trigger] self@[j].0,
        ) by {
            assert(precedes(self.is_descending, self.order@[i], self.order@[j]));
        }
        assert forall|i: int| 0 <= i < self@.len() implies #[trigger] self@[i].1 > 0 by {
            assert(self.volumes@[self.order@[i] as int] > 0);
        }
    }

    /// A well-formed side lists exactly `levels_of` its volumes.
    pub proof fn lemma_levels_of(&self)
        requires
            self.wf(),
        ensures
            self@ == levels_of(self.volume_seq(), self.descending()),
    {
        let vols = self.volumes@;
        let up = present_ascending(vols, vols.len());
        lemma_present_ascending(vols, vols.len());
        let idx = if self.is_descending { up.reverse() } else { up };
        assert forall|x: usize| idx.contains(x) <==> (x < vols.len() && vols[x as int] > 0) by {
            if self.is_descending {
                if idx.contains(x) {
                    let k = idx.lemma_contains_to_index(x);
                    assert(up[up.len() - 1 - k] == x);
                    assert(up.contains(x));
                }
                if up.contains(x) {
                    let k = up.lemma_contains_to_index(x);
                    assert(idx[up.len() - 1 - k] == x);
                }
            }
        }
        assert(sorted_by(self.is_descending, idx)) by {
            if self.is_descending {
                assert forall|i: int, j: int| 0 <= i < j < idx.len() implies precedes(true, #[trigger] idx[i], #[trigger] idx[j]) by {
                    assert(idx[i] == up[up.len() - 1 - i]);
                    assert(idx[j] == up[up.len() - 1 - j]);
                    assert(precedes(false, up[up.len() - 1 - j], up[up.len() - 1 - i]));
                }
            }
        }
        assert forall|x: usize| self.order@.contains(x) <==> idx.contains(x) by {
            if self.order@.contains(x) {
                let k = self.order@.lemma_contains_to_index(x);
                assert(self.order@[k] < vols.len());
                assert(vols[self.order@[k] as int] > 0);
            }
            if x < vols.len() {
                self.lemma_present_iff_listed(x);
            }
        }
        lemma_sorted_unique(self.is_descending, self.order@, idx);
        assert(self@ =~= levels_of(vols, self.is_descending));
    }

    /// The volume sequence covers the grid.
    pub proof fn lemma_volume_seq(&self)
        ensures
            self.volume_seq().len() == self.capacity(),
            forall|i: int| 0 <= i < self.capacity() ==> #[trigger] self.volume_seq()[i] == self.volume(i),
    {
    }

    /// The number of grid levels.
    pub fn size(&self) -> (r: usize)
        ensures
            r == self.capacity(),
    {
        self.volumes.len()
    }

    /// Two well-formed sides of one order whose volumes agree list the same levels.
    pub proof fn lemma_same_volumes_same_levels(a: &Self, b: &Self)
        requires
            a.wf(),
            b.wf(),
            a.descending() == b.descending(),
            a.volume_seq() == b.volume_seq(),
        ensures
            a.indices() == b.indices(),
            a@ == b@,
    {
        assert forall|x: usize| a.order@.contains(x) <==> b.order@.contains(x) by {
            if a.order@.contains(x) {
                let k = a.order@.lemma_contains_to_index(x);
                assert(a.order@[k] < a.volumes@.len());
                a.lemma_present_iff_listed(x);
                b.lemma_present_iff_listed(x);
            }
            if b.order@.contains(x) {
                let k = b.order@.lemma_contains_to_index(x);
                assert(b.order@[k] < b.volumes@.len());
                a.lemma_present_iff_listed(x);
                b.lemma_present_iff_listed(x);
            }
        }
        lemma_sorted_unique(a.is_descending, a.order@, b.order@);
        assert(a@ =~= b@);
    }

    /// Setting an empty level and then setting it back to zero leaves the levels as they were.
    pub proof fn lemma_set_then_unset_restores(a: &Self, b: &Self, c: &Self, index: usize, qty: u64)
        requires
            a.wf(),
            b.wf(),
            c.wf(),
            a.descending() == c.descending(),
            index < a.capacity(),
            a.volume(index as int) == 0,
            b.volume_seq() == a.volume_seq().update(index as int, qty),
            c.volume_seq() == b.volume_seq().update(index as int, 0),
        ensures
            c@ == a@,
    {
        assert(c.volume_seq() =~= a.volume_seq());
        Self::lemma_same_volumes_same_levels(a, c);
    }
}

/// Two strictly ordered sequences with the same members are equal.
proof fn lemma_sorted_unique(descending: bool, a: Seq<usize>, b: Seq<usize>)
    requires
        sorted_by(descending, a),
        sorted_by(descending, b),
        forall|x: usize| a.contains(x) <==> b.contains(x),
    ensures
        a == b,
    decreases a.len(),
{
    if a.len() == 0 {
        if b.len() > 0 {
            assert(b.contains(b[0]));
        }
        assert(a =~= b);
    } else {
        assert(a.contains(a[0]));
        let j = b.lemma_contains_to_index(a[0]);
        assert(b.contains(b[0]));
        let i = a.lemma_contains_to_index(b[0]);
        if a[0] != b[0] {
            assert(i > 0 && j > 0);
            assert(precedes(descending, a[0], a[i]));
            assert(precedes(descending, b[0], b[j]));
        }
        let ta = a.drop_first();
        let tb = b.drop_first();
        assert forall|x: usize| ta.contains(x) <==> tb.contains(x) by {
            if ta.contains(x) {
                let k = ta.lemma_contains_to_index(x);
                assert(a[k + 1] == x);
                assert(precedes(descending, a[0], a[k + 1]));
                assert(a.contains(x));
                let m = b.lemma_contains_to_index(x);
                assert(m != 0);
                assert(tb[m - 1] == x);
            }
            if tb.contains(x) {
                let k = tb.lemma_contains_to_index(x);
                assert(b[k + 1] == x);
                assert(precedes(descending, b[0], b[k + 1]));
                assert(b.contains(x));
                let m = a.lemma_contains_to_index(x);
                assert(m != 0);
                assert(ta[m - 1] == x);
            }
        }
        lemma_sorted_unique(descending, ta, tb);
        assert forall|k: int| 0 <= k < a.len() implies a[k] == b[k] by {
            if k > 0 {
                assert(a[k] == ta[k - 1]);
                assert(b[k] == tb[k - 1]);
            }
        }
        assert(a =~= b);
    }
}

} // verus!
