use super::{has_key, lemma_leading_all_true, level_from_flips, settle_level, Node, SkipList};
use crate::coin::draw_flips;
use crate::order::{compare, key_eq, key_lt};
use core::cmp::Ordering;
use vstd::prelude::*;

verus! {

impl<K: Ord, V> SkipList<K, V> {
    /// Whether the node in slot `nx` holds a key below `key`.
    pub(super) fn key_below(&self, nx: usize, key: &K) -> (r: bool)
        requires
            self.wf_core(),
            nx < self.nodes@.len(),
            self.nodes@[nx as int].entry is Some,
        ensures
            r == key_lt(self.nodes@[nx as int].entry->Some_0.0, *key),
    {
        match &self.nodes[nx].entry {
            Some(e) => {
                let o = compare(&e.0, key);
                match o {
                    Ordering::Less => true,
                    _ => false,
                }
            },
            None => false,
        }
    }

    /// The arena slot of the node at rank `target` (1-based), found by walking
    /// down the levels and following each link whose span does not overshoot.
    pub(super) fn find_rank(&self, target: usize) -> (c: usize)
        requires
            self.wf(),
            1 <= target <= self@.len(),
        ensures
            c == self.slot(target as int),
    {
        let mut c: usize = 0;
        let mut pos: usize = 0;
        let mut i: usize = self.nodes[0].forwards.len();
        while i > 0
            invariant
                self.wf(),
                1 <= target <= self.n(),
                0 <= pos <= target,
                c == self.slot(pos as int),
                i <= self.height(pos as int),
                i < self.height(pos as int) ==> pos + self.span(pos as int, i as int) > target,
            decreases i,
        {
            i -= 1;
            assert(self.node_ok(pos as int));
            loop
                invariant
                    self.wf(),
                    1 <= target <= self.n(),
                    0 <= pos <= target,
                    c == self.slot(pos as int),
                    i < self.height(pos as int),
                ensures
                    0 <= pos <= target,
                    c == self.slot(pos as int),
                    i < self.height(pos as int),
                    pos + self.span(pos as int, i as int) > target,
                decreases target - pos,
            {
                assert(self.node_ok(pos as int));
                assert(self.links_ok(pos as int, i as int));
                let f = self.nodes[c].forwards[i];
                let d = self.nodes[c].distance[i];
                match f {
                    Some(nx) => {
                        if pos + d <= target {
                            pos = pos + d;
                            c = nx;
                        } else {
                            break;
                        }
                    }
                    None => {
                        break;
                    }
                }
            }
        }
        assert(self.node_ok(pos as int));
        assert(self.links_ok(pos as int, 0));
        if pos < target {
            assert(self.node_ok(pos as int + 1));
            assert(self.height(pos as int + 1) >= 1);
        }
        c
    }

    /// For each level, the last rank before the place of `key`, found by a
    /// walk down from the top level; the result is indexed by level.
    pub(super) fn search(&self, key: &K) -> (update: Vec<(usize, usize)>)
        requires
            self.wf_core(),
        ensures
            update@.len() == self.height(0),
            forall|i: int| 0 <= i < update@.len() ==> #[trigger] self.search_ok(*key, update@[i], i),
    {
        let top = self.nodes[0].forwards.len();
        let mut update: Vec<(usize, usize)> = Vec::new();
        let mut k: usize = 0;
        while k < top
            invariant
                top == self.height(0),
                k <= top,
                update@.len() == k,
            decreases top - k,
        {
            update.push((0, 0));
            k += 1;
        }
        let mut c: usize = 0;
        let mut pos: usize = 0;
        let mut i: usize = top;
        while i > 0
            invariant
                self.wf_core(),
                top == self.height(0),
                update@.len() == top,
                i <= top,
                0 <= pos <= self.n(),
                c == self.slot(pos as int),
                i <= self.height(pos as int),
                pos == 0 || key_lt(self.key_at(pos as int), *key),
                forall|l: int| i <= l < top ==> #[trigger] self.search_ok(*key, update@[l], l),
            decreases i,
        {
            i -= 1;
            loop
                invariant
                    self.wf_core(),
                    0 <= pos <= self.n(),
                    c == self.slot(pos as int),
                    i < self.height(pos as int),
                    pos == 0 || key_lt(self.key_at(pos as int), *key),
                    top == self.height(0),
                    update@.len() == top,
                    i < top,
                    forall|l: int| i < l < top ==> #[trigger] self.search_ok(*key, update@[l], l),
                ensures
                    0 <= pos <= self.n(),
                    c == self.slot(pos as int),
                    i < self.height(pos as int),
                    self.search_ok(*key, (c, pos), i as int),
                decreases self.n() - pos,
            {
                assert(self.node_ok(pos as int));
                assert(self.links_ok(pos as int, i as int));
                let f = self.nodes[c].forwards[i];
                let d = self.nodes[c].distance[i];
                match f {
                    Some(nx) => {
                        assert(self.node_ok(pos + d));
                        if self.key_below(nx, key) {
                            pos = pos + d;
                            c = nx;
                        } else {
                            break;
                        }
                    }
                    None => {
                        break;
                    }
                }
            }
            update.set(i, (c, pos));
        }
        update
    }

    /// The slot of the node whose key equals `key`, if there is one, given
    /// the result `update` of a search for `key`.
    pub(super) fn find_equal(&self, key: &K, update: &Vec<(usize, usize)>) -> (t: Option<usize>)
        requires
            self.wf(),
            update@.len() == self.height(0),
            forall|i: int| 0 <= i < update@.len() ==> #[trigger] self.search_ok(*key, update@[i], i),
        ensures
            t is Some <==> has_key(self@, *key),
            t is Some ==> update@[0].1 < self.n() && t == Some(self.slot(update@[0].1 + 1))
                && key_eq(self@[update@[0].1 as int].0, *key),
    {
        proof {
            self.lemma_search_place(*key, update@);
            self.lemma_slot_injective();
            self.lemma_view();
        }
        let r = update[0].1;
        if r >= self.length {
            return None;
        }
        proof {
            assert(self.search_ok(*key, update@[0], 0));
            assert(self.node_ok(r as int));
            assert(self.node_ok(r as int + 1));
            assert(self.key_at(r as int + 1) == self@[r as int].0);
        }
        let t = match self.nodes[update[0].0].forwards[0] {
            Some(t) => t,
            None => 0,
        };
        let same = match &self.nodes[t].entry {
            Some(e) => match compare(&e.0, key) {
                Ordering::Equal => true,
                _ => false,
            },
            None => false,
        };
        if same {
            Some(t)
        } else {
            None
        }
    }

    /// Draws the height of a new node: starting from 1, one more level for
    /// each successful coin flip, up to one above the current number of
    /// levels. A height above the current number of levels adds one empty
    /// level on top of the header, unless growth is switched off, in which
    /// case the height is capped at the current number of levels. The flips
    /// come from the list's own generator.
    pub(super) fn determine_level(&mut self) -> (level: usize)
        requires
            old(self).wf(),
        ensures
            final(self).wf_core(),
            final(self).order == old(self).order,
            final(self).length == old(self).length,
            final(self).free == old(self).free,
            final(self).level_fixed == old(self).level_fixed,
            final(self).p_numerator == old(self).p_numerator,
            final(self).p_denominator == old(self).p_denominator,
            final(self).nodes@.len() == old(self).nodes@.len(),
            forall|t: int| 1 <= t < old(self).nodes@.len() ==> #[trigger] final(self).nodes@[t] == old(self).nodes@[t],
            final(self).nodes@[0].entry == old(self).nodes@[0].entry,
            (final(self).nodes@[0] == old(self).nodes@[0]) || (!old(self).level_fixed
                && final(self).nodes@[0].forwards@ == old(self).nodes@[0].forwards@.push(None)
                && final(self).nodes@[0].distance@ == old(self).nodes@[0].distance@.push((old(self).n() + 1) as usize)
                && level == final(self).height(0)),
            1 <= level <= final(self).height(0),
            final(self).height(0) == 1 || final(self).fwd(0, final(self).height(0) - 1) is Some
                || level == final(self).height(0),
            old(self).n() + 1 <= usize::MAX,
            final(self).height(0) == old(self).height(0)
                || (final(self).height(0) == old(self).height(0) + 1 && level == final(self).height(0)),
            old(self).p_numerator == old(self).p_denominator && old(self).height(0) < usize::MAX
                ==> level == (if old(self).level_fixed { old(self).height(0) } else { old(self).height(0) + 1 }),
            old(self).p_numerator == 0 ==> level == 1 && final(self).nodes@ == old(self).nodes@,
    {
        proof {
            assert(self.nodes.len() == self.nodes@.len());
        }
        let top = self.nodes[0].forwards.len();
        let limit: usize = if top < usize::MAX { top } else { top - 1 };
        let numerator = self.p_numerator;
        let denominator = self.p_denominator;
        let ghost before = *self;
        let flips = draw_flips(&mut self.rng, numerator, denominator, limit);
        proof {
            Self::lemma_wf_settings(&before, self);
            if numerator == denominator {
                lemma_leading_all_true(flips@);
            }
            if numerator == 0 && flips@.len() > 0 {
                assert(!flips@[0]);
            }
        }
        let level = level_from_flips(&flips, limit);
        let (settled, grow) = settle_level(level, top, self.level_fixed);
        if grow {
            let ghost before = *self;
            let end = self.length + 1;
            self.nodes[0].forwards.push(None);
            self.nodes[0].distance.push(end);
            proof {
                Self::lemma_grow(&before, self);
            }
        }
        proof {
            if !grow {
                assert(self.nodes@ =~= old(self).nodes@);
            }
        }
        settled
    }

    /// Inserts `(key, value)` as a new node at the place `update` reports.
    pub(super) fn insert_new(&mut self, key: K, value: V, update: Vec<(usize, usize)>)
        requires
            old(self).wf(),
            update@.len() == old(self).height(0),
            forall|i: int| 0 <= i < update@.len() ==> #[trigger] old(self).search_ok(key, update@[i], i),
            update@[0].1 < old(self).n() ==> !key_eq(old(self).key_at(update@[0].1 + 1), key),
        ensures
            final(self).wf(),
            final(self).level_fixed == old(self).level_fixed,
            final(self).p_numerator == old(self).p_numerator,
            final(self).p_denominator == old(self).p_denominator,
            final(self)@ == old(self)@.insert(update@[0].1 as int, (key, value)),
            final(self).height(0) <= old(self).height(0) + 1,
            final(self).height(0) >= old(self).height(0),
            old(self).level_fixed ==> final(self).height(0) == old(self).height(0),
            old(self).p_numerator == 0 ==> final(self).height(0) == old(self).height(0),
            old(self).p_numerator == old(self).p_denominator && !old(self).level_fixed
                && old(self).height(0) < usize::MAX ==> final(self).height(0) == old(self).height(0) + 1,
            final(self).n() == old(self).n() + 1,
            final(self).height(0) > old(self).height(0) ==> forall|pp: int| 1 <= pp <= final(self).n()
                ==> (#[trigger] final(self).height(pp) == final(self).height(0) <==> pp == update@[0].1 + 1),
    {
        let mut update = update;
        let ghost start = *self;
        let level = self.determine_level();
        if update.len() < self.nodes[0].forwards.len() {
            update.push((0, 0));
        }
        let ghost o = *self;
        let ghost u = update@;
        proof {
            if o.nodes@[0] == start.nodes@[0] {
                assert(o.nodes@ =~= start.nodes@);
                assert forall|i: int| 0 <= i < u.len() implies #[trigger] o.search_ok(key, u[i], i) by {
                    assert(start.search_ok(key, u[i], i));
                }
            } else {
                Self::lemma_grow(&start, &o);
                let top = start.height(0);
                assert(start.node_ok(0));
                assert(u[top] == (0usize, 0usize));
                assert(o.nodes@[0].distance@[top] == start.n() + 1);
                assert forall|i: int| 0 <= i < u.len() implies #[trigger] o.search_ok(key, u[i], i) by {
                    if i < top {
                        assert(start.search_ok(key, u[i], i));
                        assert(start.node_ok(u[i].1 as int));
                        assert(o.span(u[i].1 as int, i) == start.span(u[i].1 as int, i));
                        assert(o.slot(u[i].1 as int) == start.slot(u[i].1 as int));
                        let p = u[i].1 as int;
                        assert(p <= o.n());
                        assert(u[i].0 == o.slot(p));
                        assert(i < o.height(p));
                        assert(p == 0 || key_lt(o.key_at(p), key));
                        let q = p + o.span(p, i);
                        assert(start.links_ok(p, i));
                        if q <= start.n() {
                            assert(o.key_at(q) == start.key_at(q));
                        }
                        assert(q == o.n() + 1 || !key_lt(o.key_at(q), key));
                        let q = u[i].1 + start.span(u[i].1 as int, i);
                        if q <= start.n() {
                            assert(o.key_at(q) == start.key_at(q));
                        }
                        if u[i].1 > 0 {
                            assert(o.key_at(u[i].1 as int) == start.key_at(u[i].1 as int));
                            assert(o.height(u[i].1 as int) == start.height(u[i].1 as int));
                        }
                    } else {
                        assert(i == top);
                        assert(o.span(0, i) == o.n() + 1);
                    }
                }
            }
        }
        proof {
            assert(forall|i: int| 0 <= i < u.len() ==> #[trigger] o.search_ok(key, u[i], i));
        }
        self.splice_new(key, value, update, level);
        proof {
            if self.height(0) > start.height(0) {
                assert(o.nodes@[0] != start.nodes@[0]);
                Self::lemma_grow(&start, &o);
                assert(o.search_ok(key, u[0], 0));
                assert forall|pp: int| 1 <= pp <= self.n() implies (#[trigger] self.height(pp) == self.height(0)
                    <==> pp == u[0].1 + 1) by {
                    if pp <= u[0].1 {
                        assert(start.node_ok(pp));
                        assert(o.height(pp) == start.height(pp));
                    } else if pp > u[0].1 + 1 {
                        assert(start.node_ok(pp - 1));
                        assert(o.height(pp - 1) == start.height(pp - 1));
                    }
                }
            }
        }
    }

    /// Puts a node of height `level` for `(key, value)` into a free slot and
    /// links it in after the ranks `update` that a search for `key` reported.
    pub(super) fn splice_new(&mut self, key: K, value: V, update: Vec<(usize, usize)>, level: usize)
        requires
            old(self).wf_core(),
            update@.len() == old(self).height(0),
            forall|i: int| 0 <= i < update@.len() ==> #[trigger] old(self).search_ok(key, update@[i], i),
            update@[0].1 < old(self).n() ==> !key_eq(old(self).key_at(update@[0].1 + 1), key),
            1 <= level <= old(self).height(0),
            old(self).height(0) == 1 || old(self).fwd(0, old(self).height(0) - 1) is Some
                || level == old(self).height(0),
        ensures
            final(self).wf(),
            final(self).level_fixed == old(self).level_fixed,
            final(self).p_numerator == old(self).p_numerator,
            final(self).p_denominator == old(self).p_denominator,
            final(self)@ == old(self)@.insert(update@[0].1 as int, (key, value)),
            final(self).height(0) == old(self).height(0),
            final(self).n() == old(self).n() + 1,
            forall|pp: int| 1 <= pp <= old(self).n() + 1 ==> #[trigger] final(self).height(pp) == (if pp <= update@[0].1 {
                old(self).height(pp)
            } else if pp == update@[0].1 + 1 {
                level as int
            } else {
                old(self).height(pp - 1)
            }),
    {
        let ghost o = *self;
        let ghost u = update@;
        let r = update[0].1;
        proof {
            o.lemma_slot_injective();
            o.lemma_search_place(key, u);
            assert forall|i: int| 0 <= i < u.len() implies #[trigger] o.update_slot_ok(u, i) by {
                assert(o.search_ok(key, u[i], i));
                assert(o.links_ok(u[i].1 as int, i));
                assert(o.node_ok(u[i].1 as int));
            }
        }
        let s = self.alloc_slot();
        proof {
            assert(self.nodes.len() == self.nodes@.len());
        }
        proof {
            assert forall|i: int| 0 <= i < u.len() implies (#[trigger] u[i]).0 != s by {
                assert(o.update_slot_ok(u, i));
                if s < o.nodes@.len() && u[i].1 > 0 {
                    assert(o.node_ok(u[i].1 as int));
                }
            }
        }
        let (fw, dw) = self.new_links(&update, level, s, Ghost(o));
        self.nodes.set(s, Node { entry: Some((key, value)), forwards: fw, distance: dw });
        self.order = Ghost(o.order@.insert(r as int, s));
        self.length = self.length + 1;
        self.link_levels(&update, level, s, Ghost(o));
        proof {
            Self::lemma_insert(&o, self, key, value, u, level as int, s);
        }
    }

    /// Takes a slot for a new node: the last free one, or a fresh one at the
    /// end of the arena.
    pub(super) fn alloc_slot(&mut self) -> (s: usize)
        requires
            old(self).wf_core(),
        ensures
            1 <= s < final(self).nodes@.len(),
            final(self).nodes@.len() >= old(self).n() + 2,
            (s < old(self).nodes@.len() && old(self).nodes@[s as int].entry is None
                && final(self).nodes@.len() == old(self).nodes@.len() && old(self).free@.len() > 0
                && old(self).free@.last() == s && final(self).free@ == old(self).free@.drop_last())
                || (s == old(self).nodes@.len() && final(self).nodes@.len() == old(self).nodes@.len() + 1
                && final(self).free@ == old(self).free@),
            forall|t: int| 0 <= t < old(self).nodes@.len() && t != s ==> #[trigger] final(self).nodes@[t] == old(self).nodes@[t],
            final(self).order == old(self).order,
            final(self).length == old(self).length,
            final(self).level_fixed == old(self).level_fixed,
            final(self).p_numerator == old(self).p_numerator,
            final(self).p_denominator == old(self).p_denominator,
    {
        match self.free.pop() {
            Some(t) => {
                proof {
                    assert(old(self).free@[old(self).free@.len() - 1] == t);
                }
                t
            },
            None => {
                self.nodes.push(Node { entry: None, forwards: Vec::new(), distance: Vec::new() });
                self.nodes.len() - 1
            },
        }
    }

    /// The links of a new node of height `level` spliced in after the ranks
    /// `update`: at each level, the link its predecessor had, shortened by
    /// the distance from the predecessor to the new node.
    pub(super) fn new_links(&self, update: &Vec<(usize, usize)>, level: usize, s: usize, Ghost(o): Ghost<Self>)
        -> (r: (Vec<Option<usize>>, Vec<usize>))
        requires
            o.wf_core(),
            update@.len() == o.height(0),
            1 <= level <= update@.len(),
            forall|i: int| 0 <= i < update@.len() ==> #[trigger] o.update_slot_ok(update@, i),
            forall|i: int| 0 <= i < update@.len() ==> (#[trigger] update@[i]).0 != s,
            forall|t: int| 0 <= t < o.nodes@.len() && t != s ==> #[trigger] self.nodes@[t] == o.nodes@[t],
            self.nodes@.len() >= o.nodes@.len(),
        ensures
            r.0@.len() == level,
            r.1@.len() == level,
            forall|j: int| 0 <= j < level ==> #[trigger] r.0@[j] == o.fs(update@[j].0 as int, j)
                && r.1@[j] == o.ds(update@[j].0 as int, j) + update@[j].1 - update@[0].1,
    {
        let r = update[0].1;
        let mut fw: Vec<Option<usize>> = Vec::new();
        let mut dw: Vec<usize> = Vec::new();
        let mut l: usize = 0;
        while l < level
            invariant
                l <= level,
                level <= update@.len(),
                update@.len() == o.height(0),
                r == update@[0].1,
                fw@.len() == l,
                dw@.len() == l,
                self.nodes@.len() >= o.nodes@.len(),
                forall|t: int| 0 <= t < o.nodes@.len() && t != s ==> #[trigger] self.nodes@[t] == o.nodes@[t],
                forall|i: int| 0 <= i < update@.len() ==> #[trigger] o.update_slot_ok(update@, i),
                forall|i: int| 0 <= i < update@.len() ==> (#[trigger] update@[i]).0 != s,
                forall|j: int| 0 <= j < l ==> #[trigger] fw@[j] == o.fs(update@[j].0 as int, j)
                    && dw@[j] == o.ds(update@[j].0 as int, j) + update@[j].1 - r,
                forall|p: int| 0 <= p <= o.n() ==> #[trigger] o.node_ok(p),
            decreases level - l,
        {
            let t = update[l].0;
            let up = update[l].1;
            proof {
                assert(o.update_slot_ok(update@, l as int));
                assert(update@[l as int].0 != s);
                assert(o.node_ok(up as int));
                assert(self.nodes@[t as int] == o.nodes@[t as int]);
            }
            let f = self.nodes[t].forwards[l];
            let d = self.nodes[t].distance[l];
            fw.push(f);
            dw.push(d - (r - up));
            l += 1;
        }
        (fw, dw)
    }

    /// Sets the link of slot `t` at level `l`.
    pub(super) fn set_link(&mut self, t: usize, l: usize, f: Option<usize>, d: usize)
        requires
            t < old(self).nodes@.len(),
            l < old(self).nodes@[t as int].forwards@.len(),
            l < old(self).nodes@[t as int].distance@.len(),
        ensures
            final(self).nodes@.len() == old(self).nodes@.len(),
            forall|x: int| 0 <= x < old(self).nodes@.len() && x != t ==> #[trigger] final(self).nodes@[x] == old(self).nodes@[x],
            final(self).nodes@[t as int].entry == old(self).nodes@[t as int].entry,
            final(self).nodes@[t as int].forwards@ == old(self).nodes@[t as int].forwards@.update(l as int, f),
            final(self).nodes@[t as int].distance@ == old(self).nodes@[t as int].distance@.update(l as int, d),
            final(self).free == old(self).free,
            final(self).order == old(self).order,
            final(self).length == old(self).length,
            final(self).level_fixed == old(self).level_fixed,
            final(self).p_numerator == old(self).p_numerator,
            final(self).p_denominator == old(self).p_denominator,
    {
        let mut nd = Node { entry: None, forwards: Vec::new(), distance: Vec::new() };
        core::mem::swap(&mut self.nodes[t], &mut nd);
        nd.forwards.set(l, f);
        nd.distance.set(l, d);
        self.nodes.set(t, nd);
    }

    /// Points each update node at the new node in slot `s` on the levels the
    /// new node reaches, and widens its link by one on the levels above.
    pub(super) fn link_levels(&mut self, update: &Vec<(usize, usize)>, level: usize, s: usize, Ghost(o): Ghost<Self>)
        requires
            o.wf_core(),
            update@.len() == o.height(0),
            1 <= level <= update@.len(),
            forall|i: int| 0 <= i < update@.len() ==> #[trigger] o.update_slot_ok(update@, i),
            forall|i: int| 0 <= i < update@.len() ==> (#[trigger] update@[i]).0 != s,
            forall|t: int| 0 <= t < o.nodes@.len() && t != s ==> #[trigger] old(self).nodes@[t] == o.nodes@[t],
            old(self).nodes@.len() >= o.n() + 2,
            old(self).nodes@.len() >= o.nodes@.len(),
            s < old(self).nodes@.len(),
        ensures
            final(self).nodes@.len() == old(self).nodes@.len(),
            final(self).free == old(self).free,
            final(self).order == old(self).order,
            final(self).length == old(self).length,
            final(self).level_fixed == old(self).level_fixed,
            final(self).p_numerator == old(self).p_numerator,
            final(self).p_denominator == old(self).p_denominator,
            final(self).nodes@[s as int] == old(self).nodes@[s as int],
            forall|t: int| 0 <= t < o.nodes@.len() && t != s ==> #[trigger] final(self).nodes@[t].entry == o.nodes@[t].entry,
            forall|t: int| 0 <= t < o.nodes@.len() && t != s ==> #[trigger] final(self).nodes@[t].forwards@.len() == o.nodes@[t].forwards@.len(),
            forall|t: int| 0 <= t < o.nodes@.len() && t != s ==> #[trigger] final(self).nodes@[t].distance@.len() == o.nodes@[t].distance@.len(),
            forall|t: int, m: int| #![trigger final(self).fs(t, m)] 0 <= t < o.nodes@.len() && t != s && 0 <= m < o.nodes@[t].forwards@.len()
                && !(m < update@.len() && t == update@[m].0) ==> final(self).fs(t, m) == o.fs(t, m)
                && final(self).ds(t, m) == o.ds(t, m),
            forall|m: int| #![trigger final(self).fs(update@[m].0 as int, m)] 0 <= m < update@.len() && m < level ==> final(self).fs(update@[m].0 as int, m) == Some(s)
                && final(self).ds(update@[m].0 as int, m) == update@[0].1 + 1 - update@[m].1,
            forall|m: int| #![trigger final(self).fs(update@[m].0 as int, m)] 0 <= m < update@.len() && level <= m ==> final(self).fs(update@[m].0 as int, m)
                == o.fs(update@[m].0 as int, m) && final(self).ds(update@[m].0 as int, m) == o.ds(update@[m].0 as int, m) + 1,
    {
        let ghost a = *self;
        let r = update[0].1;
        let total = self.nodes.len();
        let top = update.len();
        let mut l: usize = 0;
        while l < top
            invariant
                l <= top,
                top == update@.len(),
                1 <= level <= top,
                update@.len() == o.height(0),
                r == update@[0].1,
                total == self.nodes@.len(),
                o.n() + 2 <= total,
                self.nodes@.len() == a.nodes@.len(),
                a.nodes@.len() >= o.nodes@.len(),
                self.free == a.free,
                self.order == a.order,
                self.length == a.length,
                self.level_fixed == a.level_fixed,
                self.p_numerator == a.p_numerator,
                self.p_denominator == a.p_denominator,
                s < a.nodes@.len(),
                self.nodes@[s as int] == a.nodes@[s as int],
                forall|t: int| 0 <= t < o.nodes@.len() && t != s ==> #[trigger] self.nodes@[t].entry == o.nodes@[t].entry,
                forall|t: int| 0 <= t < o.nodes@.len() && t != s ==> #[trigger] self.nodes@[t].forwards@.len() == o.nodes@[t].forwards@.len(),
                forall|t: int| 0 <= t < o.nodes@.len() && t != s ==> #[trigger] self.nodes@[t].distance@.len() == o.nodes@[t].distance@.len(),
                forall|t: int, m: int| #![trigger self.fs(t, m)] 0 <= t < o.nodes@.len() && t != s && 0 <= m < o.nodes@[t].forwards@.len()
                    && !(m < l && t == update@[m].0) ==> self.fs(t, m) == o.fs(t, m) && self.ds(t, m) == o.ds(t, m),
                forall|m: int| #![trigger self.fs(update@[m].0 as int, m)] 0 <= m < l && m < level ==> self.fs(update@[m].0 as int, m) == Some(s)
                    && self.ds(update@[m].0 as int, m) == r + 1 - update@[m].1,
                forall|m: int| #![trigger self.fs(update@[m].0 as int, m)] 0 <= m < l && level <= m ==> self.fs(update@[m].0 as int, m) == o.fs(update@[m].0 as int, m)
                    && self.ds(update@[m].0 as int, m) == o.ds(update@[m].0 as int, m) + 1,
                forall|i: int| 0 <= i < update@.len() ==> #[trigger] o.update_slot_ok(update@, i),
                forall|i: int| 0 <= i < update@.len() ==> (#[trigger] update@[i]).0 != s,
                forall|p: int| 0 <= p <= o.n() ==> #[trigger] o.node_ok(p),
            decreases top - l,
        {
            let t = update[l].0;
            let up = update[l].1;
            proof {
                assert(o.update_slot_ok(update@, l as int));
                assert(update@[l as int].0 != s);
                assert(o.node_ok(up as int));
                assert(self.fs(t as int, l as int) == o.fs(t as int, l as int));
                assert(self.nodes@[t as int].forwards@.len() == o.nodes@[t as int].forwards@.len());
            }
            let ghost prev = *self;
            if l < level {
                self.set_link(t, l, Some(s), r + 1 - up);
            } else {
                let f = self.nodes[t].forwards[l];
                let d = self.nodes[t].distance[l];
                self.set_link(t, l, f, d + 1);
            }
            proof {
                assert forall|x: int, m: int| #![trigger self.fs(x, m)] 0 <= x < self.nodes@.len() && !(x == t && m == l)
                    && 0 <= m < prev.nodes@[x].forwards@.len() && m < prev.nodes@[x].distance@.len()
                    implies self.fs(x, m) == prev.fs(x, m) && self.ds(x, m) == prev.ds(x, m) by {
                    if x != t {
                        assert(self.nodes@[x] == prev.nodes@[x]);
                    }
                }
                assert forall|m: int| #![trigger self.fs(update@[m].0 as int, m)] 0 <= m < l && m < level implies self.fs(update@[m].0 as int, m) == Some(s)
                    && self.ds(update@[m].0 as int, m) == r + 1 - update@[m].1 by {
                    assert(prev.fs(update@[m].0 as int, m) == Some(s));
                    assert(o.update_slot_ok(update@, m));
                    assert(o.node_ok(update@[m].1 as int));
                }
                assert forall|m: int| #![trigger self.fs(update@[m].0 as int, m)] 0 <= m < l && level <= m implies self.fs(update@[m].0 as int, m)
                    == o.fs(update@[m].0 as int, m) && self.ds(update@[m].0 as int, m) == o.ds(update@[m].0 as int, m) + 1 by {
                    assert(prev.fs(update@[m].0 as int, m) == o.fs(update@[m].0 as int, m));
                    assert(o.update_slot_ok(update@, m));
                    assert(o.node_ok(update@[m].1 as int));
                }
                assert forall|x: int, m: int| #![trigger self.fs(x, m)] 0 <= x < o.nodes@.len() && x != s && 0 <= m < o.nodes@[x].forwards@.len()
                    && !(m < l + 1 && x == update@[m].0) implies self.fs(x, m) == o.fs(x, m) && self.ds(x, m) == o.ds(x, m) by {
                    assert(prev.fs(x, m) == o.fs(x, m));
                    if x == t {
                        assert(prev.nodes@[x].forwards@.len() == o.nodes@[x].forwards@.len());
                    }
                    assert(o.node_ok(0));
                }
            }
            l += 1;
        }
    }

    /// Drops the top level of the header.
    pub(super) fn pop_level(&mut self)
        requires
            old(self).nodes@.len() >= 1,
            old(self).nodes@[0].forwards@.len() >= 1,
            old(self).nodes@[0].distance@.len() >= 1,
        ensures
            final(self).nodes@.len() == old(self).nodes@.len(),
            forall|t: int| 1 <= t < old(self).nodes@.len() ==> #[trigger] final(self).nodes@[t] == old(self).nodes@[t],
            final(self).nodes@[0].entry == old(self).nodes@[0].entry,
            final(self).nodes@[0].forwards@ == old(self).nodes@[0].forwards@.drop_last(),
            final(self).nodes@[0].distance@ == old(self).nodes@[0].distance@.drop_last(),
            final(self).free == old(self).free,
            final(self).order == old(self).order,
            final(self).length == old(self).length,
            final(self).level_fixed == old(self).level_fixed,
            final(self).p_numerator == old(self).p_numerator,
            final(self).p_denominator == old(self).p_denominator,
    {
        let mut nd = Node { entry: None, forwards: Vec::new(), distance: Vec::new() };
        core::mem::swap(&mut self.nodes[0], &mut nd);
        let _ = nd.forwards.pop();
        let _ = nd.distance.pop();
        self.nodes.set(0, nd);
    }

    /// Drops the top levels of the header that no node reaches, keeping one.
    pub(super) fn trim(&mut self)
        requires
            old(self).wf_core(),
        ensures
            final(self).wf(),
            final(self)@ == old(self)@,
            final(self).level_fixed == old(self).level_fixed,
            final(self).p_numerator == old(self).p_numerator,
            final(self).p_denominator == old(self).p_denominator,
            final(self).order == old(self).order,
            final(self).free == old(self).free,
            final(self).length == old(self).length,
            final(self).nodes@.len() == old(self).nodes@.len(),
            forall|t: int| 1 <= t < old(self).nodes@.len() ==> #[trigger] final(self).nodes@[t] == old(self).nodes@[t],
            final(self).nodes@[0].entry == old(self).nodes@[0].entry,
            1 <= final(self).height(0) <= old(self).height(0),
            final(self).nodes@[0].forwards@ == old(self).nodes@[0].forwards@.subrange(0, final(self).height(0)),
            final(self).nodes@[0].distance@ == old(self).nodes@[0].distance@.subrange(0, final(self).height(0)),
            forall|l: int| final(self).height(0) <= l < old(self).height(0) ==> #[trigger] old(self).fs(0, l) is None,
            final(self).height(0) == 1 || old(self).fs(0, final(self).height(0) - 1) is Some,
    {
        proof {
            assert(self.node_ok(0));
            assert(self.nodes@[0].forwards@ =~= self.nodes@[0].forwards@.subrange(0, self.height(0)));
            assert(self.nodes@[0].distance@ =~= self.nodes@[0].distance@.subrange(0, self.height(0)));
        }
        loop
            invariant
                self.wf_core(),
                self@ == old(self)@,
                self.level_fixed == old(self).level_fixed,
                self.p_numerator == old(self).p_numerator,
                self.p_denominator == old(self).p_denominator,
                self.order == old(self).order,
                self.free == old(self).free,
                self.length == old(self).length,
                self.nodes@.len() == old(self).nodes@.len(),
                forall|t: int| 1 <= t < old(self).nodes@.len() ==> #[trigger] self.nodes@[t] == old(self).nodes@[t],
                self.nodes@[0].entry == old(self).nodes@[0].entry,
                1 <= self.height(0) <= old(self).height(0),
                self.nodes@[0].forwards@ == old(self).nodes@[0].forwards@.subrange(0, self.height(0)),
                self.nodes@[0].distance@ == old(self).nodes@[0].distance@.subrange(0, self.height(0)),
                forall|l: int| self.height(0) <= l < old(self).height(0) ==> #[trigger] old(self).fs(0, l) is None,
                old(self).nodes@[0].forwards@.len() == old(self).nodes@[0].distance@.len(),
            ensures
                self.wf(),
                self@ == old(self)@,
                self.level_fixed == old(self).level_fixed,
                self.p_numerator == old(self).p_numerator,
                self.p_denominator == old(self).p_denominator,
                self.order == old(self).order,
                self.free == old(self).free,
                self.length == old(self).length,
                self.nodes@.len() == old(self).nodes@.len(),
                forall|t: int| 1 <= t < old(self).nodes@.len() ==> #[trigger] self.nodes@[t] == old(self).nodes@[t],
                self.nodes@[0].entry == old(self).nodes@[0].entry,
                1 <= self.height(0) <= old(self).height(0),
                self.nodes@[0].forwards@ == old(self).nodes@[0].forwards@.subrange(0, self.height(0)),
                self.nodes@[0].distance@ == old(self).nodes@[0].distance@.subrange(0, self.height(0)),
                forall|l: int| self.height(0) <= l < old(self).height(0) ==> #[trigger] old(self).fs(0, l) is None,
                self.height(0) == 1 || old(self).fs(0, self.height(0) - 1) is Some,
            decreases self.height(0),
        {
            let top = self.nodes[0].forwards.len();
            if top <= 1 {
                break;
            }
            if self.nodes[0].forwards[top - 1].is_some() {
                break;
            }
            let ghost before = *self;
            proof {
                assert(self.node_ok(0));
            }
            self.pop_level();
            proof {
                Self::lemma_shrink(&before, self);
                assert(self.nodes@[0].forwards@ =~= old(self).nodes@[0].forwards@.subrange(0, self.height(0)));
                assert(self.nodes@[0].distance@ =~= old(self).nodes@[0].distance@.subrange(0, self.height(0)));
            }
        }
    }

    /// For each level, the last rank before rank `x`, found by a walk down
    /// from the top level; the result is indexed by level.
    pub(super) fn walk_before(&self, x: usize) -> (update: Vec<(usize, usize)>)
        requires
            self.wf_core(),
            1 <= x <= self.n(),
        ensures
            update@.len() == self.height(0),
            forall|i: int| 0 <= i < update@.len() ==> #[trigger] self.remove_ok(x as int, update@[i], i),
    {
        let top = self.nodes[0].forwards.len();
        let mut update: Vec<(usize, usize)> = Vec::new();
        let mut k: usize = 0;
        while k < top
            invariant
                top == self.height(0),
                k <= top,
                update@.len() == k,
            decreases top - k,
        {
            update.push((0, 0));
            k += 1;
        }
        let mut c: usize = 0;
        let mut pos: usize = 0;
        let mut i: usize = top;
        while i > 0
            invariant
                self.wf_core(),
                1 <= x <= self.n(),
                top == self.height(0),
                update@.len() == top,
                i <= top,
                0 <= pos < x,
                c == self.slot(pos as int),
                i <= self.height(pos as int),
                forall|l: int| i <= l < top ==> #[trigger] self.remove_ok(x as int, update@[l], l),
            decreases i,
        {
            i -= 1;
            loop
                invariant
                    self.wf_core(),
                    1 <= x <= self.n(),
                    0 <= pos < x,
                    c == self.slot(pos as int),
                    i < self.height(pos as int),
                    top == self.height(0),
                    update@.len() == top,
                    i < top,
                    forall|l: int| i < l < top ==> #[trigger] self.remove_ok(x as int, update@[l], l),
                ensures
                    0 <= pos < x,
                    c == self.slot(pos as int),
                    i < self.height(pos as int),
                    self.remove_ok(x as int, (c, pos), i as int),
                decreases x - pos,
            {
                assert(self.node_ok(pos as int));
                assert(self.links_ok(pos as int, i as int));
                let f = self.nodes[c].forwards[i];
                let d = self.nodes[c].distance[i];
                match f {
                    Some(nx) => {
                        if pos + d < x {
                            pos = pos + d;
                            c = nx;
                        } else {
                            break;
                        }
                    }
                    None => {
                        break;
                    }
                }
            }
            update.set(i, (c, pos));
        }
        update
    }

    /// Unlinks the node at rank `x` after the ranks `update` and frees its
    /// slot; returns its entry.
    pub(super) fn unlink(&mut self, update: Vec<(usize, usize)>, x: usize) -> (e: (K, V))
        requires
            old(self).wf(),
            update@.len() == old(self).height(0),
            forall|i: int| 0 <= i < update@.len() ==> #[trigger] old(self).remove_ok(x as int, update@[i], i),
            1 <= x <= old(self).n(),
        ensures
            final(self).wf(),
            final(self)@ == old(self)@.remove(x - 1),
            e == old(self)@[x - 1],
            final(self).height(0) <= old(self).height(0),
            final(self).level_fixed == old(self).level_fixed,
            final(self).p_numerator == old(self).p_numerator,
            final(self).p_denominator == old(self).p_denominator,
    {
        let ghost o = *self;
        let ghost u = update@;
        proof {
            o.lemma_slot_injective();
            assert(o.remove_ok(x as int, u[0], 0));
            let p0 = u[0].1 as int;
            assert(o.node_ok(p0));
            assert(o.links_ok(p0, 0));
            assert(o.node_ok(x as int));
            if p0 + 1 < x {
                assert(o.node_ok(p0 + 1));
                assert(o.height(p0 + 1) >= 1);
            }
            assert(o.fwd(p0, 0) == Some(o.slot(x as int)));
            assert forall|i: int| 0 <= i < u.len() implies #[trigger] o.update_gone_ok(u, x as int, i) by {
                assert(o.remove_ok(x as int, u[i], i));
                assert(o.node_ok(u[i].1 as int));
                assert(o.links_ok(u[i].1 as int, i));
                if i < o.height(x as int) {
                    assert(o.links_ok(x as int, i));
                }
            }
        }
        let xs = match self.nodes[update[0].0].forwards[0] {
            Some(t) => t,
            None => 0,
        };
        proof {
            assert(self.nodes.len() == self.nodes@.len());
        }
        let mut nd = Node { entry: None, forwards: Vec::new(), distance: Vec::new() };
        core::mem::swap(&mut self.nodes[xs], &mut nd);
        self.free.push(xs);
        self.order = Ghost(o.order@.remove(x - 1));
        self.length = self.length - 1;
        self.unlink_levels(&update, x, xs, &nd.forwards, &nd.distance, Ghost(o));
        proof {
            Self::lemma_remove(&o, self, u, x as int, xs);
        }
        self.trim();
        nd.entry.unwrap()
    }

    /// Routes each link that passes the node at rank `x` (in slot `xs`, whose
    /// former links are `xf` and `xd`) past it.
    pub(super) fn unlink_levels(
        &mut self,
        update: &Vec<(usize, usize)>,
        x: usize,
        xs: usize,
        xf: &Vec<Option<usize>>,
        xd: &Vec<usize>,
        Ghost(o): Ghost<Self>,
    )
        requires
            o.wf_core(),
            update@.len() == o.height(0),
            1 <= x <= o.n(),
            xs == o.slot(x as int),
            xf@ == o.nodes@[xs as int].forwards@,
            xd@ == o.nodes@[xs as int].distance@,
            forall|i: int| 0 <= i < update@.len() ==> #[trigger] o.update_gone_ok(update@, x as int, i),
            forall|t: int| 0 <= t < o.nodes@.len() && t != xs ==> #[trigger] old(self).nodes@[t] == o.nodes@[t],
            old(self).nodes@.len() == o.nodes@.len(),
            o.nodes@.len() <= usize::MAX,
        ensures
            final(self).nodes@.len() == old(self).nodes@.len(),
            final(self).free == old(self).free,
            final(self).order == old(self).order,
            final(self).length == old(self).length,
            final(self).level_fixed == old(self).level_fixed,
            final(self).p_numerator == old(self).p_numerator,
            final(self).p_denominator == old(self).p_denominator,
            final(self).nodes@[xs as int] == old(self).nodes@[xs as int],
            forall|t: int| 0 <= t < o.nodes@.len() && t != xs ==> #[trigger] final(self).nodes@[t].entry == o.nodes@[t].entry,
            forall|t: int| 0 <= t < o.nodes@.len() && t != xs ==> #[trigger] final(self).nodes@[t].forwards@.len() == o.nodes@[t].forwards@.len(),
            forall|t: int| 0 <= t < o.nodes@.len() && t != xs ==> #[trigger] final(self).nodes@[t].distance@.len() == o.nodes@[t].distance@.len(),
            forall|t: int, m: int| #![trigger final(self).fs(t, m)] 0 <= t < o.nodes@.len() && t != xs && 0 <= m < o.nodes@[t].forwards@.len()
                && !(m < update@.len() && t == update@[m].0) ==> final(self).fs(t, m) == o.fs(t, m) && final(self).ds(t, m) == o.ds(t, m),
            forall|m: int| #![trigger final(self).fs(update@[m].0 as int, m)] 0 <= m < update@.len() && m < o.height(x as int)
                ==> final(self).fs(update@[m].0 as int, m) == o.fs(xs as int, m)
                && final(self).ds(update@[m].0 as int, m) == o.ds(update@[m].0 as int, m) + o.ds(xs as int, m) - 1,
            forall|m: int| #![trigger final(self).fs(update@[m].0 as int, m)] 0 <= m < update@.len() && o.height(x as int) <= m
                ==> final(self).fs(update@[m].0 as int, m) == o.fs(update@[m].0 as int, m)
                && final(self).ds(update@[m].0 as int, m) == o.ds(update@[m].0 as int, m) - 1,
    {
        let ghost a = *self;
        let top = update.len();
        let hx = xf.len();
        let mut l: usize = 0;
        while l < top
            invariant
                l <= top,
                top == update@.len(),
                update@.len() == o.height(0),
                o.wf_core(),
                1 <= x <= o.n(),
                hx == o.height(x as int),
                xs == o.slot(x as int),
                xf@ == o.nodes@[xs as int].forwards@,
                xd@ == o.nodes@[xs as int].distance@,
                o.nodes@.len() <= usize::MAX,
                self.nodes@.len() == a.nodes@.len(),
                a.nodes@.len() == o.nodes@.len(),
                self.free == a.free,
                self.order == a.order,
                self.length == a.length,
                self.level_fixed == a.level_fixed,
                self.p_numerator == a.p_numerator,
                self.p_denominator == a.p_denominator,
                xs < a.nodes@.len(),
                self.nodes@[xs as int] == a.nodes@[xs as int],
                forall|t: int| 0 <= t < o.nodes@.len() && t != xs ==> #[trigger] self.nodes@[t].entry == o.nodes@[t].entry,
                forall|t: int| 0 <= t < o.nodes@.len() && t != xs ==> #[trigger] self.nodes@[t].forwards@.len() == o.nodes@[t].forwards@.len(),
                forall|t: int| 0 <= t < o.nodes@.len() && t != xs ==> #[trigger] self.nodes@[t].distance@.len() == o.nodes@[t].distance@.len(),
                forall|t: int, m: int| #![trigger self.fs(t, m)] 0 <= t < o.nodes@.len() && t != xs && 0 <= m < o.nodes@[t].forwards@.len()
                    && !(m < l && t == update@[m].0) ==> self.fs(t, m) == o.fs(t, m) && self.ds(t, m) == o.ds(t, m),
                forall|m: int| #![trigger self.fs(update@[m].0 as int, m)] 0 <= m < l && m < hx
                    ==> self.fs(update@[m].0 as int, m) == o.fs(xs as int, m)
                    && self.ds(update@[m].0 as int, m) == o.ds(update@[m].0 as int, m) + o.ds(xs as int, m) - 1,
                forall|m: int| #![trigger self.fs(update@[m].0 as int, m)] 0 <= m < l && hx <= m
                    ==> self.fs(update@[m].0 as int, m) == o.fs(update@[m].0 as int, m)
                    && self.ds(update@[m].0 as int, m) == o.ds(update@[m].0 as int, m) - 1,
                forall|i: int| 0 <= i < update@.len() ==> #[trigger] o.update_gone_ok(update@, x as int, i),
                forall|p: int| 0 <= p <= o.n() ==> #[trigger] o.node_ok(p),
            decreases top - l,
        {
            let t = update[l].0;
            proof {
                assert(o.update_gone_ok(update@, x as int, l as int));
                assert(o.node_ok(update@[l as int].1 as int));
                assert(o.node_ok(x as int));
                assert(self.fs(t as int, l as int) == o.fs(t as int, l as int));
                assert(self.nodes@[t as int].forwards@.len() == o.nodes@[t as int].forwards@.len());
                assert(self.nodes@[t as int].distance@.len() == o.nodes@[t as int].distance@.len());
            }
            let ghost prev = *self;
            if l < hx {
                let d = self.nodes[t].distance[l];
                self.set_link(t, l, xf[l], d + xd[l] - 1);
            } else {
                let f = self.nodes[t].forwards[l];
                let d = self.nodes[t].distance[l];
                self.set_link(t, l, f, d - 1);
            }
            proof {
                assert forall|y: int, m: int| #![trigger self.fs(y, m)] 0 <= y < self.nodes@.len() && !(y == t && m == l)
                    && 0 <= m < prev.nodes@[y].forwards@.len() && m < prev.nodes@[y].distance@.len()
                    implies self.fs(y, m) == prev.fs(y, m) && self.ds(y, m) == prev.ds(y, m) by {
                    if y != t {
                        assert(self.nodes@[y] == prev.nodes@[y]);
                    }
                }
                assert forall|m: int| #![trigger self.fs(update@[m].0 as int, m)] 0 <= m < l && m < hx
                    implies self.fs(update@[m].0 as int, m) == o.fs(xs as int, m)
                    && self.ds(update@[m].0 as int, m) == o.ds(update@[m].0 as int, m) + o.ds(xs as int, m) - 1 by {
                    assert(prev.fs(update@[m].0 as int, m) == o.fs(xs as int, m));
                    assert(o.update_gone_ok(update@, x as int, m));
                    assert(o.node_ok(update@[m].1 as int));
                }
                assert forall|m: int| #![trigger self.fs(update@[m].0 as int, m)] 0 <= m < l && hx <= m
                    implies self.fs(update@[m].0 as int, m) == o.fs(update@[m].0 as int, m)
                    && self.ds(update@[m].0 as int, m) == o.ds(update@[m].0 as int, m) - 1 by {
                    assert(prev.fs(update@[m].0 as int, m) == o.fs(update@[m].0 as int, m));
                    assert(o.update_gone_ok(update@, x as int, m));
                    assert(o.node_ok(update@[m].1 as int));
                }
                assert forall|y: int, m: int| #![trigger self.fs(y, m)] 0 <= y < o.nodes@.len() && y != xs && 0 <= m < o.nodes@[y].forwards@.len()
                    && !(m < l + 1 && y == update@[m].0) implies self.fs(y, m) == o.fs(y, m) && self.ds(y, m) == o.ds(y, m) by {
                    assert(prev.fs(y, m) == o.fs(y, m));
                    assert(o.node_ok(0));
                }
            }
            l += 1;
        }
    }

    /// Replaces the value at rank `p` by `modify` applied to it.
    pub(super) fn modify_at<F: FnOnce(V) -> V>(&mut self, p: usize, c: usize, modify: F) -> (nv: Ghost<V>)
        requires
            old(self).wf(),
            1 <= p <= old(self).n(),
            c == old(self).slot(p as int),
            modify.requires((old(self)@[p - 1].1,)),
        ensures
            final(self).wf(),
            final(self).level_fixed == old(self).level_fixed,
            final(self).p_numerator == old(self).p_numerator,
            final(self).p_denominator == old(self).p_denominator,
            final(self).height(0) == old(self).height(0),
            modify.ensures((old(self)@[p - 1].1,), nv@),
            final(self)@ == old(self)@.update(p - 1, (old(self)@[p - 1].0, nv@)),
    {
        proof {
            self.lemma_slot_injective();
            self.lemma_view();
            assert(self.node_ok(p as int));
        }
        let ghost before = *self;
        let taken = self.nodes[c].entry.take();
        match taken {
            Some(e) => {
                let v = modify(e.1);
                let ghost nv = v;
                self.nodes[c].entry = Some((e.0, v));
                proof {
                    Self::lemma_set_value(&before, self, p as int, nv);
                }
                Ghost(nv)
            },
            None => {
                proof {
                    assert(false);
                }
                Ghost(arbitrary())
            },
        }
    }
}

} // verus!
