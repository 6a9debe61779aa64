use crate::coin::{rng_from_u64, seeded_rng};
use crate::order::{key_eq, key_lt};
use rand::rngs::SmallRng;
use crate::{KeyNotFound, OutOfBounds};
use vstd::laws_cmp::obeys_cmp;
use vstd::prelude::*;

pub mod laws;
mod lemmas;
mod splice;

verus! {

/// One slot of the node arena. Slot 0 is the header: it holds no entry and its
/// link arrays are as long as the list's current number of levels. Every other
/// slot is either a real node, with its key and value, or a free slot.
#[derive(Clone)]
pub struct Node<K, V> {
    entry: Option<(K, V)>,
    forwards: Vec<Option<usize>>,
    distance: Vec<usize>,
}

/// An ordered map from keys to values that also answers "which entry is the
/// `i`-th smallest" in logarithmic expected time.
///
/// Nodes live in an arena and link to each other by slot number. For each level
/// a node takes part in, it stores the slot of the next node at that level and
/// the span: how many places further along the sorted order that node stands
/// (or, at the end of a level, how far the end of the list is).
#[derive(Clone)]
pub struct SkipList<K, V> {
    nodes: Vec<Node<K, V>>,
    free: Vec<usize>,
    length: usize,
    level_fixed: bool,
    p_numerator: u32,
    p_denominator: u32,
    /// The source of the coin flips that draw node heights.
    rng: SmallRng,
    /// The slots of the real nodes, in key order.
    order: Ghost<Seq<usize>>,
}

impl<K: Ord, V> View for SkipList<K, V> {
    type V = Seq<(K, V)>;

    /// The entries in increasing key order.
    closed spec fn view(&self) -> Seq<(K, V)> {
        Seq::new(self.order@.len(), |j: int| self.nodes@[self.order@[j] as int].entry->Some_0)
    }
}

/// The keys of `s` strictly increase.
pub open spec fn sorted_keys<K: Ord, V>(s: Seq<(K, V)>) -> bool {
    forall|j: int, k: int| 0 <= j < k < s.len() ==> key_lt(#[trigger] s[j].0, #[trigger] s[k].0)
}

/// `s` holds an entry whose key equals `key`.
pub open spec fn has_key<K: Ord, V>(s: Seq<(K, V)>, key: K) -> bool {
    exists|j: int| 0 <= j < s.len() && key_eq(#[trigger] s[j].0, key)
}

/// `j` is the place at which `key` belongs in the sorted `s`: every key before it
/// is smaller, and no key from it on is smaller.
pub open spec fn is_insert_point<K: Ord, V>(s: Seq<(K, V)>, key: K, j: int) -> bool {
    &&& 0 <= j <= s.len()
    &&& forall|m: int| 0 <= m < j ==> key_lt(#[trigger] s[m].0, key)
    &&& forall|m: int| j <= m < s.len() ==> !key_lt(#[trigger] s[m].0, key)
}

/// How many of the flips in `s`, from the first on, succeeded before the
/// first that failed.
pub open spec fn leading_trues(s: Seq<bool>) -> nat
    decreases s.len(),
{
    if s.len() == 0 {
        0
    } else if s[0] {
        1 + leading_trues(s.drop_first())
    } else {
        0
    }
}

/// Flips that all succeeded count in full.
pub proof fn lemma_leading_all_true(s: Seq<bool>)
    requires
        forall|i: int| 0 <= i < s.len() ==> #[trigger] s[i],
    ensures
        leading_trues(s) == s.len(),
    decreases s.len(),
{
    if s.len() > 0 {
        lemma_leading_all_true(s.drop_first());
    }
}

/// The height that the coin flips `flips` draw for a new node when the
/// header has `top` levels: one more than the number of leading successful
/// flips, but not more than `top + 1`.
pub fn level_from_flips(flips: &Vec<bool>, top: usize) -> (r: usize)
    requires
        top < usize::MAX,
    ensures
        r == (if leading_trues(flips@) < top { 1 + leading_trues(flips@) as int } else { top + 1 }),
{
    let mut n: usize = 0;
    proof {
        assert(flips@.subrange(0, flips@.len() as int) =~= flips@);
    }
    while n < flips.len() && n < top && flips[n]
        invariant
            n <= flips@.len(),
            n <= top,
            leading_trues(flips@) == n + leading_trues(flips@.subrange(n as int, flips@.len() as int)),
        decreases flips@.len() - n,
    {
        proof {
            let t = flips@.subrange(n as int, flips@.len() as int);
            assert(t.drop_first() =~= flips@.subrange(n + 1, flips@.len() as int));
        }
        n += 1;
    }
    proof {
        let t = flips@.subrange(n as int, flips@.len() as int);
        if n < flips@.len() && n < top {
            assert(!t[0]);
        }
        if n == flips@.len() {
            assert(t.len() == 0);
        }
    }
    n + 1
}

/// Where a drawn height `level` ends, with `top` levels in the header, and
/// whether the header gains a level: a height above `top` adds one level,
/// unless growth is fixed, in which case the height is capped at `top`.
pub fn settle_level(level: usize, top: usize, fixed: bool) -> (r: (usize, bool))
    ensures
        r == (if level > top {
            if fixed { (top, false) } else { (level, true) }
        } else {
            (level, false)
        }),
{
    if level > top {
        if fixed {
            (top, false)
        } else {
            (level, true)
        }
    } else {
        (level, false)
    }
}

impl<K: Ord, V> SkipList<K, V> {
    spec fn n(&self) -> int {
        self.order@.len() as int
    }

    /// The arena slot of the node at rank `p`; rank 0 is the header.
    spec fn slot(&self, p: int) -> usize {
        if p == 0 {
            0
        } else {
            self.order@[p - 1]
        }
    }

    spec fn height(&self, p: int) -> int {
        self.nodes@[self.slot(p) as int].forwards@.len() as int
    }

    spec fn fwd(&self, p: int, i: int) -> Option<usize> {
        self.nodes@[self.slot(p) as int].forwards@[i]
    }

    spec fn span(&self, p: int, i: int) -> int {
        self.nodes@[self.slot(p) as int].distance@[i] as int
    }

    spec fn key_at(&self, p: int) -> K {
        self.nodes@[self.slot(p) as int].entry->Some_0.0
    }

    spec fn node_ok(&self, p: int) -> bool {
        let nd = self.nodes@[self.slot(p) as int];
        &&& nd.forwards@.len() == nd.distance@.len()
        &&& p > 0 ==> 1 <= nd.forwards@.len() <= self.height(0) && nd.entry is Some
    }

    /// The link of rank `p` at level `i` leads to the next rank whose node
    /// reaches above level `i`, and its span is the distance to that rank (to
    /// one past the last rank where there is none).
    spec fn links_ok(&self, p: int, i: int) -> bool {
        let q = p + self.span(p, i);
        &&& p < q <= self.n() + 1
        &&& forall|r: int| p < r < q ==> #[trigger] self.height(r) <= i
        &&& q <= self.n() ==> self.height(q) > i && self.fwd(p, i) == Some(self.slot(q))
        &&& q == self.n() + 1 ==> self.fwd(p, i) is None
    }

    /// The structure is a well-formed indexable skip list: keys strictly
    /// increase along the base level, every stored span is the measured distance
    /// to the next node at its level, `length` counts the real nodes, and the top
    /// level is in use unless it is the only one.
    pub closed spec fn wf(&self) -> bool {
        &&& self.wf_core()
        &&& self.height(0) == 1 || self.fwd(0, self.height(0) - 1) is Some
    }

    /// All of `wf` but the demand that the top level be in use.
    spec fn wf_core(&self) -> bool {
        &&& obeys_cmp::<K>()
        &&& self.nodes@.len() >= 1
        &&& self.nodes@[0].entry is None
        &&& self.height(0) >= 1
        &&& self.length == self.n()
        &&& self.nodes@.len() == 1 + self.n() + self.free@.len()
        &&& 0 < self.p_denominator
        &&& self.p_numerator <= self.p_denominator
        &&& forall|j: int| 0 <= j < self.n() ==> 1 <= #[trigger] self.order@[j] < self.nodes@.len()
        &&& forall|j: int, k: int|
            0 <= j < k < self.n() ==> #[trigger] self.order@[j] != #[trigger] self.order@[k]
        &&& forall|p: int| 0 <= p <= self.n() ==> #[trigger] self.node_ok(p)
        &&& forall|j: int, k: int|
            1 <= j < k <= self.n() ==> key_lt(#[trigger] self.key_at(j), #[trigger] self.key_at(k))
        &&& forall|p: int, i: int|
            0 <= p <= self.n() && 0 <= i < self.height(p) ==> #[trigger] self.links_ok(p, i)
        &&& forall|j: int|
            0 <= j < self.free@.len() ==> 1 <= #[trigger] self.free@[j] < self.nodes@.len()
                && self.nodes@[self.free@[j] as int].entry is None
        &&& self.free@.no_duplicates()
    }

    /// `e` is where a search for `key` leaves level `i`: a rank whose key (if
    /// any) is below `key`, whose link at level `i` leads past every smaller key.
    spec fn search_ok(&self, key: K, e: (usize, usize), i: int) -> bool {
        let p = e.1 as int;
        let q = p + self.span(p, i);
        &&& p <= self.n()
        &&& e.0 == self.slot(p)
        &&& i < self.height(p)
        &&& (p == 0 || key_lt(self.key_at(p), key))
        &&& (q == self.n() + 1 || !key_lt(self.key_at(q), key))
    }

    /// `e` is where a walk towards rank `x` leaves level `i`: a rank before
    /// `x` whose link at level `i` reaches `x` or beyond.
    spec fn remove_ok(&self, x: int, e: (usize, usize), i: int) -> bool {
        let p = e.1 as int;
        &&& 0 <= p < x <= self.n()
        &&& e.0 == self.slot(p)
        &&& i < self.height(p)
        &&& p + self.span(p, i) >= x
    }

    spec fn fs(&self, t: int, l: int) -> Option<usize> {
        self.nodes@[t].forwards@[l]
    }

    spec fn ds(&self, t: int, l: int) -> int {
        self.nodes@[t].distance@[l] as int
    }

    /// The facts about entry `i` of a search result that splicing relies on.
    spec fn update_slot_ok(&self, u: Seq<(usize, usize)>, i: int) -> bool {
        let p = u[i].1 as int;
        &&& u[i].0 == self.slot(p)
        &&& u[i].0 < self.nodes@.len()
        &&& 0 <= p <= u[0].1
        &&& i < self.height(p)
        &&& p + self.span(p, i) > u[0].1
        &&& self.span(p, i) <= self.n() + 1 - p
    }

    /// The facts about entry `i` of a walk towards rank `x` that unlinking
    /// the node at `x` relies on.
    spec fn update_gone_ok(&self, u: Seq<(usize, usize)>, x: int, i: int) -> bool {
        let p = u[i].1 as int;
        &&& u[i].0 == self.slot(p)
        &&& u[i].0 < self.nodes@.len()
        &&& u[i].0 != self.slot(x)
        &&& 0 <= p < x
        &&& i < self.height(p)
        &&& p + self.span(p, i) >= x
        &&& self.span(p, i) <= self.n() + 1 - p
        &&& i < self.height(x) ==> p + self.span(p, i) == x && self.span(x, i) <= self.n() + 1 - x
        &&& self.height(x) <= i ==> self.span(p, i) >= 2
    }

    /// Every stored span equals the measured base-level distance from its
    /// node to the node its link leads to (or to one past the last node).
    pub closed spec fn spans_measured(&self) -> bool {
        forall|p: int, i: int| 0 <= p <= self.n() && 0 <= i < self.height(p) ==> #[trigger] self.links_ok(p, i)
    }

    /// The number of nodes met by following the base-level links from slot
    /// `c`, taking at most `fuel` steps.
    pub closed spec fn walk_len(&self, c: usize, fuel: nat) -> nat
        decreases fuel,
    {
        if fuel == 0 {
            0
        } else {
            match self.nodes@[c as int].forwards@[0] {
                Some(nx) => 1 + self.walk_len(nx, (fuel - 1) as nat),
                None => 0,
            }
        }
    }

    /// The number of nodes met by a full walk of the base level from the header.
    pub closed spec fn base_walk_len(&self) -> nat {
        self.walk_len(0, self.nodes@.len())
    }

    /// How many levels the node at `index` (0-based, in key order) reaches.
    pub closed spec fn node_height(&self, index: int) -> nat {
        self.nodes@[self.slot(index + 1) as int].forwards@.len()
    }

    /// The number of levels the header spans.
    pub closed spec fn levels(&self) -> nat {
        self.nodes@[0].forwards@.len()
    }

    /// Whether automatic growth of the number of levels is switched off.
    pub closed spec fn fixed(&self) -> bool {
        self.level_fixed
    }

    /// The leveling probability, as a numerator over a denominator.
    pub closed spec fn probability(&self) -> (u32, u32) {
        (self.p_numerator, self.p_denominator)
    }
}

impl<K: Ord, V> SkipList<K, V> {
    /// Creates an empty list with one level and leveling probability 1/2.
    pub fn new() -> (r: Self)
        requires
            obeys_cmp::<K>(),
        ensures
            r.wf(),
            r@.len() == 0,
            r.levels() == 1,
            !r.fixed(),
            r.probability() == (1u32, 2u32),
    {
        Self::new_with_p(1, 2)
    }

    /// Creates an empty list with one level whose leveling probability is
    /// `numerator / denominator`, clamped to at most 1. Its coin flips come
    /// from a generator seeded by the operating system.
    pub fn new_with_p(numerator: u32, denominator: u32) -> (r: Self)
        requires
            obeys_cmp::<K>(),
            0 < denominator,
        ensures
            r.wf(),
            r@.len() == 0,
            r.levels() == 1,
            !r.fixed(),
            r.probability() == (if numerator <= denominator { numerator } else { denominator }, denominator),
    {
        Self::with_rng(numerator, denominator, seeded_rng())
    }

    /// Creates an empty list as `new_with_p` does, whose coin flips come from
    /// a generator seeded with `seed`: equal seeds and equal calls give equal
    /// node heights.
    pub fn new_seeded(numerator: u32, denominator: u32, seed: u64) -> (r: Self)
        requires
            obeys_cmp::<K>(),
            0 < denominator,
        ensures
            r.wf(),
            r@.len() == 0,
            r.levels() == 1,
            !r.fixed(),
            r.probability() == (if numerator <= denominator { numerator } else { denominator }, denominator),
    {
        Self::with_rng(numerator, denominator, rng_from_u64(seed))
    }

    fn with_rng(numerator: u32, denominator: u32, rng: SmallRng) -> (r: Self)
        requires
            obeys_cmp::<K>(),
            0 < denominator,
        ensures
            r.wf(),
            r@.len() == 0,
            r.levels() == 1,
            !r.fixed(),
            r.probability() == (if numerator <= denominator { numerator } else { denominator }, denominator),
    {
        let head = Node { entry: None, forwards: vec![None], distance: vec![1] };
        let list = SkipList {
            nodes: vec![head],
            free: Vec::new(),
            length: 0,
            level_fixed: false,
            p_numerator: if numerator <= denominator { numerator } else { denominator },
            p_denominator: denominator,
            rng,
            order: Ghost(Seq::empty()),
        };
        assert(list.links_ok(0, 0));
        list
    }

    /// The number of levels the header currently spans.
    pub fn max_level(&self) -> (r: usize)
        requires
            self.wf(),
        ensures
            r == self.levels(),
            r >= 1,
            r == 1 || exists|i: int| 0 <= i < self@.len() && #[trigger] self.node_height(i) == r,
            forall|i: int| 0 <= i < self@.len() ==> 1 <= #[trigger] self.node_height(i) <= r,
    {
        proof {
            self.lemma_levels_in_use();
        }
        self.nodes[0].forwards.len()
    }

    /// The number of entries.
    pub fn length(&self) -> (r: usize)
        requires
            self.wf(),
        ensures
            r == self@.len(),
    {
        self.length
    }

    /// Whether the list holds no entry.
    pub fn is_empty(&self) -> (r: bool)
        requires
            self.wf(),
        ensures
            r == (self@.len() == 0),
    {
        self.length == 0
    }

    /// Whether automatic growth of the number of levels is switched off.
    pub fn is_fixed(&self) -> (r: bool)
        ensures
            r == self.fixed(),
    {
        self.level_fixed
    }

    /// Switches automatic growth of the number of levels off or on.
    pub fn set_fixed(&mut self, fixed: bool)
        requires
            old(self).wf(),
        ensures
            final(self)@ == old(self)@,
            final(self).wf(),
            final(self).levels() == old(self).levels(),
            final(self).fixed() == fixed,
            final(self).probability() == old(self).probability(),
    {
        let ghost before = *self;
        self.level_fixed = fixed;
        proof {
            Self::lemma_wf_settings(&before, self);
        }
    }

    /// Stops automatic growth of the number of levels.
    pub fn fix_level(&mut self)
        requires
            old(self).wf(),
        ensures
            final(self)@ == old(self)@,
            final(self).wf(),
            final(self).levels() == old(self).levels(),
            final(self).fixed(),
            final(self).probability() == old(self).probability(),
    {
        let ghost before = *self;
        self.level_fixed = true;
        proof {
            Self::lemma_wf_settings(&before, self);
        }
    }

    /// Lets the number of levels grow again.
    pub fn unfix_level(&mut self)
        requires
            old(self).wf(),
        ensures
            final(self)@ == old(self)@,
            final(self).wf(),
            final(self).levels() == old(self).levels(),
            !final(self).fixed(),
            final(self).probability() == old(self).probability(),
    {
        let ghost before = *self;
        self.level_fixed = false;
        proof {
            Self::lemma_wf_settings(&before, self);
        }
    }

    /// The leveling probability, as `(numerator, denominator)`.
    pub fn p(&self) -> (r: (u32, u32))
        ensures
            r == self.probability(),
    {
        (self.p_numerator, self.p_denominator)
    }

    /// Sets the leveling probability to `numerator / denominator`, clamped to at most 1.
    pub fn set_p(&mut self, numerator: u32, denominator: u32)
        requires
            old(self).wf(),
            0 < denominator,
        ensures
            final(self)@ == old(self)@,
            final(self).wf(),
            final(self).levels() == old(self).levels(),
            final(self).fixed() == old(self).fixed(),
            final(self).probability() == (if numerator <= denominator { numerator } else { denominator }, denominator),
    {
        let ghost before = *self;
        self.p_numerator = if numerator <= denominator { numerator } else { denominator };
        self.p_denominator = denominator;
        proof {
            Self::lemma_wf_settings(&before, self);
        }
    }

    /// Inserts `value` under `key`. Where the key is new, a node is spliced in
    /// at its place in key order; where a node with an equal key is already
    /// there, its value is replaced and the stored key kept.
    pub fn insert(&mut self, key: K, value: V)
        requires
            old(self).wf(),
        ensures
            final(self).wf(),
            final(self).fixed() == old(self).fixed(),
            final(self).probability() == old(self).probability(),
            old(self).levels() <= final(self).levels() <= old(self).levels() + 1,
            old(self).fixed() ==> final(self).levels() == old(self).levels(),
            old(self).probability().0 == 0 ==> final(self).levels() == old(self).levels(),
            old(self).probability().0 == old(self).probability().1 && !old(self).fixed()
                && old(self).levels() < usize::MAX && !has_key(old(self)@, key)
                ==> final(self).levels() == old(self).levels() + 1,
            has_key(old(self)@, key) ==> final(self).levels() == old(self).levels() && exists|j: int|
                0 <= j < old(self)@.len() && key_eq(old(self)@[j].0, key)
                    && final(self)@ == old(self)@.update(j, (old(self)@[j].0, value)),
            !has_key(old(self)@, key) ==> exists|j: int|
                is_insert_point(old(self)@, key, j) && final(self)@ == old(self)@.insert(j, (key, value))
                    && (final(self).levels() > old(self).levels() ==> forall|i: int| 0 <= i < final(self)@.len()
                        ==> (#[trigger] final(self).node_height(i) == final(self).levels() <==> i == j)),
    {
        let update = self.search(&key);
        let ghost before_levels = self.levels();
        proof {
            self.lemma_search_place(key, update@);
            self.lemma_slot_injective();
            self.lemma_view();
        }
        match self.find_equal(&key, &update) {
            Some(t) => {
                let ghost before = *self;
                let ghost p = update@[0].1 + 1;
                proof {
                    assert(self.node_ok(p));
                    assert(self.key_at(p) == self@[p - 1].0);
                }
                let old_entry = self.nodes[t].entry.take();
                match old_entry {
                    Some(e) => {
                        self.nodes[t].entry = Some((e.0, value));
                    },
                    None => {},
                }
                proof {
                    Self::lemma_set_value(&before, self, p, value);
                }
            },
            None => {
                proof {
                    if update@[0].1 < self.n() {
                        assert(self.key_at(update@[0].1 + 1) == self@[update@[0].1 as int].0);
                    }
                }
                self.insert_new(key, value, update);
                proof {
                    let j = update@[0].1 as int;
                    if self.levels() > before_levels {
                        assert forall|i: int| 0 <= i < self@.len() implies (#[trigger] self.node_height(i)
                            == self.levels() <==> i == j) by {
                            assert(self.height(i + 1) == self.height(0) <==> i + 1 == j + 1);
                        }
                    }
                }
            },
        }
    }

    /// Removes the entry whose key equals `key` and returns it.
    pub fn pop(&mut self, key: K) -> (r: Result<(K, V), KeyNotFound>)
        requires
            old(self).wf(),
        ensures
            final(self).wf(),
            final(self).fixed() == old(self).fixed(),
            final(self).probability() == old(self).probability(),
            final(self).levels() <= old(self).levels(),
            r is Ok <==> has_key(old(self)@, key),
            r is Err ==> r == Err::<(K, V), KeyNotFound>(KeyNotFound) && *final(self) == *old(self),
            r is Ok ==> exists|j: int| 0 <= j < old(self)@.len() && key_eq(#[trigger] old(self)@[j].0, key)
                && r == Ok::<(K, V), KeyNotFound>(old(self)@[j]) && final(self)@ == old(self)@.remove(j),
    {
        if self.length == 0 {
            return Err(KeyNotFound);
        }
        let update = self.search(&key);
        let ghost u = update@;
        match self.find_equal(&key, &update) {
            Some(_) => {
                let r = update[0].1;
                proof {
                    self.lemma_search_place(key, u);
                    assert forall|i: int| 0 <= i < u.len() implies #[trigger] self.remove_ok(r + 1, u[i], i) by {
                        assert(self.search_ok(key, u[i], i));
                    }
                }
                let e = self.unlink(update, r + 1);
                Ok(e)
            },
            None => Err(KeyNotFound),
        }
    }

    /// Removes the entry at `index` (0-based, in key order) and returns it.
    pub fn pop_at_index(&mut self, index: usize) -> (r: Result<(K, V), OutOfBounds>)
        requires
            old(self).wf(),
        ensures
            final(self).wf(),
            final(self).fixed() == old(self).fixed(),
            final(self).probability() == old(self).probability(),
            final(self).levels() <= old(self).levels(),
            index < old(self)@.len() ==> r == Ok::<(K, V), OutOfBounds>(old(self)@[index as int])
                && final(self)@ == old(self)@.remove(index as int),
            index >= old(self)@.len() ==> r == Err::<(K, V), OutOfBounds>(OutOfBounds) && *final(self) == *old(self),
    {
        proof {
            self.lemma_view();
        }
        if index >= self.length {
            return Err(OutOfBounds);
        }
        let update = self.walk_before(index + 1);
        let e = self.unlink(update, index + 1);
        Ok(e)
    }

    /// Removes the entry with the smallest key and returns it; `None` when the
    /// list is empty.
    pub fn pop_front(&mut self) -> (r: Option<(K, V)>)
        requires
            old(self).wf(),
        ensures
            final(self).wf(),
            final(self).fixed() == old(self).fixed(),
            final(self).probability() == old(self).probability(),
            final(self).levels() <= old(self).levels(),
            old(self)@.len() == 0 ==> r is None && *final(self) == *old(self),
            old(self)@.len() > 0 ==> r == Some(old(self)@[0]) && final(self)@ == old(self)@.remove(0),
    {
        proof {
            self.lemma_view();
        }
        if self.length == 0 {
            return None;
        }
        match self.pop_at_index(0) {
            Ok(e) => Some(e),
            Err(_) => None,
        }
    }

    /// Removes the entry with the largest key and returns it; `None` when the
    /// list is empty.
    pub fn pop_back(&mut self) -> (r: Option<(K, V)>)
        requires
            old(self).wf(),
        ensures
            final(self).wf(),
            final(self).fixed() == old(self).fixed(),
            final(self).probability() == old(self).probability(),
            final(self).levels() <= old(self).levels(),
            old(self)@.len() == 0 ==> r is None && *final(self) == *old(self),
            old(self)@.len() > 0 ==> r == Some(old(self)@.last()) && final(self)@ == old(self)@.drop_last(),
    {
        proof {
            self.lemma_view();
        }
        if self.length == 0 {
            return None;
        }
        let ghost before = self@;
        let last = self.length - 1;
        match self.pop_at_index(last) {
            Ok(e) => {
                proof {
                    assert(before.remove(last as int) =~= before.drop_last());
                }
                Some(e)
            },
            Err(_) => None,
        }
    }

    /// Removes the entry whose key equals `key`.
    pub fn remove(&mut self, key: K) -> (r: Result<(), KeyNotFound>)
        requires
            old(self).wf(),
        ensures
            final(self).wf(),
            final(self).fixed() == old(self).fixed(),
            final(self).probability() == old(self).probability(),
            final(self).levels() <= old(self).levels(),
            r is Ok <==> has_key(old(self)@, key),
            r is Err ==> r == Err::<(), KeyNotFound>(KeyNotFound) && *final(self) == *old(self),
            r is Ok ==> exists|j: int| 0 <= j < old(self)@.len() && key_eq(#[trigger] old(self)@[j].0, key)
                && final(self)@ == old(self)@.remove(j),
    {
        match self.pop(key) {
            Ok(_) => Ok(()),
            Err(e) => Err(e),
        }
    }

    /// Removes the entry at `index` (0-based, in key order).
    pub fn remove_at_index(&mut self, index: usize) -> (r: Result<(), OutOfBounds>)
        requires
            old(self).wf(),
        ensures
            final(self).wf(),
            final(self).fixed() == old(self).fixed(),
            final(self).probability() == old(self).probability(),
            final(self).levels() <= old(self).levels(),
            index < old(self)@.len() ==> r is Ok && final(self)@ == old(self)@.remove(index as int),
            index >= old(self)@.len() ==> r == Err::<(), OutOfBounds>(OutOfBounds) && *final(self) == *old(self),
    {
        match self.pop_at_index(index) {
            Ok(_) => Ok(()),
            Err(e) => Err(e),
        }
    }

    /// Applies `modify` to the value stored under `key`.
    pub fn edit<F: FnOnce(V) -> V>(&mut self, key: K, modify: F) -> (r: Result<(), KeyNotFound>)
        requires
            old(self).wf(),
            forall|v: V| #[trigger] modify.requires((v,)),
        ensures
            final(self).wf(),
            final(self).fixed() == old(self).fixed(),
            final(self).probability() == old(self).probability(),
            final(self).levels() == old(self).levels(),
            r is Ok <==> has_key(old(self)@, key),
            r is Err ==> r == Err::<(), KeyNotFound>(KeyNotFound) && *final(self) == *old(self),
            r is Ok ==> exists|j: int| 0 <= j < old(self)@.len() && key_eq(#[trigger] old(self)@[j].0, key)
                && exists|nv: V| modify.ensures((old(self)@[j].1,), nv)
                && final(self)@ == old(self)@.update(j, (old(self)@[j].0, nv)),
    {
        let update = self.search(&key);
        match self.find_equal(&key, &update) {
            Some(t) => {
                proof {
                    self.lemma_search_place(key, update@);
                }
                self.modify_at(update[0].1 + 1, t, modify);
                Ok(())
            },
            None => Err(KeyNotFound),
        }
    }

    /// Applies `modify` to the value at `index` (0-based, in key order).
    pub fn edit_at_index<F: FnOnce(V) -> V>(&mut self, index: usize, modify: F) -> (r: Result<(), OutOfBounds>)
        requires
            old(self).wf(),
            forall|v: V| #[trigger] modify.requires((v,)),
        ensures
            final(self).wf(),
            final(self).fixed() == old(self).fixed(),
            final(self).probability() == old(self).probability(),
            final(self).levels() == old(self).levels(),
            index >= old(self)@.len() ==> r == Err::<(), OutOfBounds>(OutOfBounds) && *final(self) == *old(self),
            index < old(self)@.len() ==> r is Ok && exists|nv: V| modify.ensures((old(self)@[index as int].1,), nv)
                && final(self)@ == old(self)@.update(index as int, (old(self)@[index as int].0, nv)),
    {
        proof {
            self.lemma_view();
        }
        if index >= self.length {
            return Err(OutOfBounds);
        }
        let c = self.find_rank(index + 1);
        self.modify_at(index + 1, c, modify);
        Ok(())
    }

    /// Removes every entry; the list is left with one empty level. Whether
    /// the number of levels is fixed and the leveling probability are kept.
    /// Returns the list itself, for chaining.
    pub fn clear(&mut self) -> (r: &mut Self)
        requires
            old(self).wf(),
        ensures
            r.wf(),
            r@.len() == 0,
            r.levels() == 1,
            r.fixed() == old(self).fixed(),
            r.probability() == old(self).probability(),
            *final(self) == *final(r),
    {
        let head = Node { entry: None, forwards: vec![None], distance: vec![1] };
        self.nodes = vec![head];
        self.free = Vec::new();
        self.length = 0;
        self.order = Ghost(Seq::empty());
        assert(self.links_ok(0, 0));
        self
    }

    /// How many levels the node at `index` (0-based, in key order) reaches.
    pub fn height_at(&self, index: usize) -> (r: Result<usize, OutOfBounds>)
        requires
            self.wf(),
        ensures
            index >= self@.len() ==> r == Err::<usize, OutOfBounds>(OutOfBounds),
            index < self@.len() ==> r == Ok::<usize, OutOfBounds>(self.node_height(index as int) as usize)
                && 1 <= self.node_height(index as int) <= self.levels(),
    {
        proof {
            self.lemma_view();
        }
        if index >= self.length {
            return Err(OutOfBounds);
        }
        let c = self.find_rank(index + 1);
        proof {
            assert(self.node_ok(index + 1));
        }
        Ok(self.nodes[c].forwards.len())
    }
}

impl<K: Ord + Clone, V: Clone> SkipList<K, V> {
    /// A copy of the entry at `index` (0-based, in key order).
    pub fn peek_at_index(&self, index: usize) -> (r: Result<(K, V), OutOfBounds>)
        requires
            self.wf(),
        ensures
            index >= self@.len() ==> r == Err::<(K, V), OutOfBounds>(OutOfBounds),
            index < self@.len() ==> (r matches Ok((k, v)) && cloned(self@[index as int].0, k)
                && cloned(self@[index as int].1, v)),
    {
        if index >= self.length {
            return Err(OutOfBounds);
        }
        let target = index + 1;
        let c = self.find_rank(target);
        proof {
            assert(self.node_ok(target as int));
        }
        match &self.nodes[c].entry {
            Some(e) => Ok((e.0.clone(), e.1.clone())),
            None => Err(OutOfBounds),
        }
    }
}

} // verus!
