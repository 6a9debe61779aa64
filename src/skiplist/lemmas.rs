use super::{has_key, is_insert_point, sorted_keys, SkipList};
use crate::order::{key_eq, key_lt, lemma_key_order};
use vstd::prelude::*;

verus! {

impl<K: Ord, V> SkipList<K, V> {
    /// The header spans one level, or exactly as many as the tallest node
    /// reaches; every node reaches at least one level and at most that many.
    pub(super) proof fn lemma_levels_in_use(&self)
        requires
            self.wf(),
        ensures
            self.levels() == 1 || exists|i: int| 0 <= i < self@.len() && #[trigger] self.node_height(i) == self.levels(),
            forall|i: int| 0 <= i < self@.len() ==> 1 <= #[trigger] self.node_height(i) <= self.levels(),
    {
        self.lemma_view();
        let top = self.height(0) - 1;
        assert(self.node_ok(0));
        if top > 0 {
            assert(self.links_ok(0, top));
            let q = self.span(0, top);
            assert(self.node_ok(q));
            assert(self.node_height(q - 1) == self.levels());
        }
        assert forall|i: int| 0 <= i < self@.len() implies 1 <= #[trigger] self.node_height(i) <= self.levels() by {
            assert(self.node_ok(i + 1));
        }
    }

    /// Facts about the place `r` that a search for `key` reports.
    pub(super) proof fn lemma_search_place(&self, key: K, u: Seq<(usize, usize)>)
        requires
            self.wf_core(),
            u.len() == self.height(0),
            forall|i: int| 0 <= i < u.len() ==> #[trigger] self.search_ok(key, u[i], i),
        ensures
            is_insert_point(self@, key, u[0].1 as int),
            forall|i: int| 0 <= i < u.len() ==> (#[trigger] u[i]).1 <= u[0].1
                && u[i].1 + self.span(u[i].1 as int, i) > u[0].1,
            u[0].1 < self.n() ==> !key_lt(self.key_at(u[0].1 + 1), key),
            u[0].1 < self.n() ==> self.fwd(u[0].1 as int, 0) == Some(self.slot(u[0].1 + 1)),
            u[0].1 < self.n() ==> self.nodes@[self.slot(u[0].1 + 1) as int].entry is Some,
            has_key(self@, key) <==> (u[0].1 < self.n() && key_eq(self.key_at(u[0].1 + 1), key)),
    {
        lemma_key_order::<K>();
        self.lemma_view();
        let r = u[0].1 as int;
        assert(self.search_ok(key, u[0], 0));
        assert(self.node_ok(r));
        assert(self.links_ok(r, 0));
        if r < self.n() {
            assert(self.node_ok(r + 1));
            assert(self.height(r + 1) >= 1);
            assert(self.span(r, 0) == 1);
        }
        assert forall|m: int| 0 <= m < r implies key_lt(#[trigger] self@[m].0, key) by {
            assert(self.key_at(m + 1) == self@[m].0);
            if m + 1 < r {
                assert(key_lt(self.key_at(m + 1), self.key_at(r)));
            }
        }
        assert forall|m: int| r <= m < self@.len() implies !key_lt(#[trigger] self@[m].0, key) by {
            assert(self.key_at(m + 1) == self@[m].0);
            if m > r {
                assert(key_lt(self.key_at(r + 1), self.key_at(m + 1)));
            }
        }
        if r < self.n() && key_eq(self.key_at(r + 1), key) {
            assert(key_eq(self@[r].0, key));
        }
        if has_key(self@, key) {
            let j = choose|j: int| 0 <= j < self@.len() && key_eq(#[trigger] self@[j].0, key);
            assert(self.key_at(j + 1) == self@[j].0);
            if j < r {
                assert(key_lt(self@[j].0, key));
            } else if j > r {
                assert(key_lt(self.key_at(r + 1), self.key_at(j + 1)));
                assert(key_eq(key, self@[j].0));
                assert(key_lt(self.key_at(r + 1), key));
            }
        }
        assert forall|i: int| 0 <= i < u.len() implies (#[trigger] u[i]).1 <= u[0].1
            && u[i].1 + self.span(u[i].1 as int, i) > u[0].1 by {
            assert(self.search_ok(key, u[i], i));
            let p = u[i].1 as int;
            let q = p + self.span(p, i);
            assert(self.node_ok(p));
            assert(self.links_ok(p, i));
            if p > r {
                assert(self.key_at(p) == self@[p - 1].0);
            }
            if q <= r {
                assert(self.key_at(q) == self@[q - 1].0);
            }
        }
    }

    /// Distinct ranks live in distinct slots.
    pub(super) proof fn lemma_slot_injective(&self)
        requires
            self.wf_core(),
        ensures
            forall|p: int, q: int| 0 <= p <= self.n() && 0 <= q <= self.n() && p != q
                ==> #[trigger] self.slot(p) != #[trigger] self.slot(q),
            forall|p: int| 0 <= p <= self.n() ==> #[trigger] self.slot(p) < self.nodes@.len(),
            forall|p: int| 1 <= p <= self.n() ==> #[trigger] self.slot(p) != 0,
    {
        assert forall|p: int, q: int| 0 <= p <= self.n() && 0 <= q <= self.n() && p != q
            implies #[trigger] self.slot(p) != #[trigger] self.slot(q) by {
            if p > 0 && q > 0 {
                if p < q {
                    assert(self.order@[p - 1] != self.order@[q - 1]);
                } else {
                    assert(self.order@[q - 1] != self.order@[p - 1]);
                }
            } else if p > 0 {
                assert(1 <= self.order@[p - 1]);
            } else {
                assert(1 <= self.order@[q - 1]);
            }
        }
        assert forall|p: int| 0 <= p <= self.n() implies #[trigger] self.slot(p) < self.nodes@.len() by {
            if p > 0 {
                assert(self.order@[p - 1] < self.nodes@.len());
            }
        }
        assert forall|p: int| 1 <= p <= self.n() implies #[trigger] self.slot(p) != 0 by {
            assert(1 <= self.order@[p - 1]);
        }
    }

    /// `f` is `o` with a node of height `lv` for `(key, value)` put in slot `s`
    /// and spliced in after the ranks `u` that a search for `key` reported.
    pub(super) open spec fn insert_step(o: &Self, f: &Self, key: K, value: V, u: Seq<(usize, usize)>, lv: int, s: usize) -> bool {
        &&& o.wf_core()
        &&& u.len() == o.height(0)
        &&& forall|i: int| 0 <= i < u.len() ==> #[trigger] o.search_ok(key, u[i], i)
        &&& u[0].1 < o.n() ==> !key_eq(o.key_at(u[0].1 + 1), key)
        &&& 1 <= lv <= o.height(0)
        &&& f.order@ == o.order@.insert(u[0].1 as int, s)
        &&& f.length == o.length + 1
        &&& 0 < f.p_denominator
        &&& f.p_numerator <= f.p_denominator
        &&& 1 <= s < f.nodes@.len()
        &&& (s < o.nodes@.len() && o.nodes@[s as int].entry is None && f.nodes@.len() == o.nodes@.len()
                    && o.free@.len() > 0 && o.free@.last() == s && f.free@ == o.free@.drop_last())
                    || (s == o.nodes@.len() && f.nodes@.len() == o.nodes@.len() + 1 && f.free@ == o.free@)
        &&& forall|t: int| 0 <= t < o.nodes@.len() && t != s ==> f.nodes@[t].entry == o.nodes@[t].entry
                    && #[trigger] f.nodes@[t].forwards@.len() == o.nodes@[t].forwards@.len()
                    && f.nodes@[t].distance@.len() == o.nodes@[t].distance@.len()
        &&& forall|t: int, l: int| #![trigger f.fs(t, l)] 0 <= t < o.nodes@.len() && t != s && 0 <= l < o.nodes@[t].forwards@.len()
                    && !(l < u.len() && t == u[l].0) ==> f.fs(t, l) == o.fs(t, l) && f.ds(t, l) == o.ds(t, l)
        &&& forall|l: int| #![trigger f.fs(u[l].0 as int, l)] 0 <= l < u.len() && l < lv ==> f.fs(u[l].0 as int, l) == Some(s)
                    && f.ds(u[l].0 as int, l) == u[0].1 + 1 - u[l].1
        &&& forall|l: int| #![trigger f.fs(u[l].0 as int, l)] 0 <= l < u.len() && lv <= l ==> f.fs(u[l].0 as int, l) == o.fs(u[l].0 as int, l)
                    && f.ds(u[l].0 as int, l) == o.ds(u[l].0 as int, l) + 1
        &&& f.nodes@[s as int].entry == Some((key, value))
        &&& f.nodes@[s as int].forwards@.len() == lv
        &&& f.nodes@[s as int].distance@.len() == lv
        &&& forall|l: int| #![trigger f.fs(s as int, l)] 0 <= l < lv ==> f.fs(s as int, l) == o.fs(u[l].0 as int, l)
                    && f.ds(s as int, l) == o.ds(u[l].0 as int, l) + u[l].1 - u[0].1
        &&& o.height(0) == 1 || o.fwd(0, o.height(0) - 1) is Some || lv == o.height(0)
    }

    /// How the ranks of `o` map to those of `f` in an insertion step.
    proof fn lemma_insert_ranks(
        o: &Self,
        f: &Self,
        key: K,
        value: V,
        u: Seq<(usize, usize)>,
        lv: int,
        s: usize,
    )
        requires
            Self::insert_step(o, f, key, value, u, lv, s),
        ensures
            is_insert_point(o@, key, u[0].1 as int),
            forall|pp: int| 0 <= pp <= o.n() + 1 ==> #[trigger] f.slot(pp) == (if pp <= u[0].1 {
                o.slot(pp)
            } else if pp == u[0].1 + 1 {
                s
            } else {
                o.slot(pp - 1)
            }),
            forall|p: int| 0 <= p <= o.n() ==> #[trigger] o.slot(p) != s,
            forall|pp: int| 0 <= pp <= o.n() + 1 ==> #[trigger] f.height(pp) == (if pp <= u[0].1 {
                o.height(pp)
            } else if pp == u[0].1 + 1 {
                lv
            } else {
                o.height(pp - 1)
            }),
            forall|pp: int| 1 <= pp <= o.n() + 1 ==> #[trigger] f.key_at(pp) == (if pp <= u[0].1 {
                o.key_at(pp)
            } else if pp == u[0].1 + 1 {
                key
            } else {
                o.key_at(pp - 1)
            }),
            f.height(0) == o.height(0),
            f.n() == o.n() + 1,
            forall|l: int| 0 <= l < u.len() ==> (#[trigger] u[l]).0 == o.slot(u[l].1 as int)
                && u[l].1 <= u[0].1 && u[l].1 + o.span(u[l].1 as int, l) > u[0].1 && l < o.height(u[l].1 as int),
    {
        lemma_key_order::<K>();
        o.lemma_view();
        o.lemma_search_place(key, u);
        o.lemma_slot_injective();
        let r = u[0].1 as int;
        let n = o.n();
        let top = o.height(0);
        assert(f.n() == n + 1);
        // where each rank of `f` lives
        assert forall|pp: int| 0 <= pp <= n + 1 implies #[trigger] f.slot(pp) == (if pp <= r {
            o.slot(pp)
        } else if pp == r + 1 {
            s
        } else {
            o.slot(pp - 1)
        }) by {}
        assert forall|p: int| 0 <= p <= n implies #[trigger] o.slot(p) != s by {
            if p > 0 {
                assert(o.node_ok(p));
            }
        }
        assert forall|pp: int| 0 <= pp <= n + 1 implies #[trigger] f.height(pp) == (if pp <= r {
            o.height(pp)
        } else if pp == r + 1 {
            lv
        } else {
            o.height(pp - 1)
        }) by {
            if pp != r + 1 {
                let p = if pp <= r { pp } else { pp - 1 };
                assert(o.slot(p) != s);
            }
        }
        assert forall|pp: int| 1 <= pp <= n + 1 implies #[trigger] f.key_at(pp) == (if pp <= r {
            o.key_at(pp)
        } else if pp == r + 1 {
            key
        } else {
            o.key_at(pp - 1)
        }) by {
            if pp != r + 1 {
                let p = if pp <= r { pp } else { pp - 1 };
                assert(o.slot(p) != s);
                assert(f.nodes@[o.slot(p) as int].forwards@.len() == o.nodes@[o.slot(p) as int].forwards@.len());
            }
        }
        assert(f.height(0) == top);
        // the update slot of each level is the rank reported by the search
        assert forall|l: int| 0 <= l < u.len() implies (#[trigger] u[l]).0 == o.slot(u[l].1 as int)
            && u[l].1 <= r && u[l].1 + o.span(u[l].1 as int, l) > r && l < o.height(u[l].1 as int) by {
            assert(o.search_ok(key, u[l], l));
        }
    }

    /// Every link of `f` is right after an insertion step.
    #[verifier::rlimit(100)]
    proof fn lemma_insert_links(
        o: &Self,
        f: &Self,
        key: K,
        value: V,
        u: Seq<(usize, usize)>,
        lv: int,
        s: usize,
    )
        requires
            Self::insert_step(o, f, key, value, u, lv, s),
        ensures
            forall|pp: int, i: int| 0 <= pp <= o.n() + 1 && 0 <= i < f.height(pp) ==> #[trigger] f.links_ok(pp, i),
    {
        lemma_key_order::<K>();
        Self::lemma_insert_ranks(o, f, key, value, u, lv, s);
        o.lemma_slot_injective();
        let r = u[0].1 as int;
        let n = o.n();
        let top = o.height(0);
        // links
        assert forall|pp: int, i: int| 0 <= pp <= n + 1 && 0 <= i < f.height(pp) implies #[trigger] f.links_ok(pp, i) by {
            if pp == r + 1 {
                let up = u[i].1 as int;
                assert(o.node_ok(up));
                assert(o.links_ok(up, i));
                let qo = up + o.span(up, i);
                assert(f.fs(s as int, i) == o.fs(u[i].0 as int, i));
                assert(f.span(pp, i) == o.span(up, i) + up - r);
                assert forall|rr: int| pp < rr < pp + f.span(pp, i) implies #[trigger] f.height(rr) <= i by {
                    assert(o.height(rr - 1) <= i);
                }
                if qo <= n {
                    assert(f.slot(qo + 1) == o.slot(qo));
                }
            } else if pp <= r {
                let p = pp;
                assert(o.node_ok(p));
                assert(o.links_ok(p, i));
                let qo = p + o.span(p, i);
                if i < u.len() && o.slot(p) == u[i].0 {
                    assert(p == u[i].1);
                    if i < lv {
                        assert(f.fs(u[i].0 as int, i) == Some(s));
                        assert forall|rr: int| pp < rr < pp + f.span(pp, i) implies #[trigger] f.height(rr) <= i by {
                            assert(o.height(rr) <= i);
                        }
                    } else {
                        assert(f.fs(u[i].0 as int, i) == o.fs(u[i].0 as int, i));
                        assert forall|rr: int| pp < rr < pp + f.span(pp, i) implies #[trigger] f.height(rr) <= i by {
                            if rr <= r {
                                assert(o.height(rr) <= i);
                            } else if rr > r + 1 {
                                assert(o.height(rr - 1) <= i);
                            }
                        }
                        if qo <= n {
                            assert(f.slot(qo + 1) == o.slot(qo));
                        }
                    }
                } else {
                    assert(f.fs(o.slot(p) as int, i) == o.fs(o.slot(p) as int, i));
                    let up = u[i].1 as int;
                    assert(o.node_ok(up));
                    assert(o.links_ok(up, i));
                    if p < up {
                        if qo > up {
                            assert(o.height(up) <= i);
                        }
                    } else {
                        assert(up < p);
                        assert(o.height(p) <= i);
                    }
                    assert(qo <= r);
                    assert forall|rr: int| pp < rr < pp + f.span(pp, i) implies #[trigger] f.height(rr) <= i by {
                        assert(o.height(rr) <= i);
                    }
                }
            } else {
                let p = pp - 1;
                assert(o.node_ok(p));
                assert(o.links_ok(p, i));
                let qo = p + o.span(p, i);
                if i < u.len() && o.slot(p) == u[i].0 {
                    assert(p == u[i].1);
                }
                assert(f.fs(o.slot(p) as int, i) == o.fs(o.slot(p) as int, i));
                assert forall|rr: int| pp < rr < pp + f.span(pp, i) implies #[trigger] f.height(rr) <= i by {
                    assert(o.height(rr - 1) <= i);
                }
                if qo <= n {
                    assert(f.slot(qo + 1) == o.slot(qo));
                }
            }
        }
    }

    /// Splicing a new node of height `lv` into slot `s`, at the place that a
    /// search for `key` reported, yields a well-formed list with the entry
    /// inserted there.
    #[verifier::rlimit(100)]
    pub(super) proof fn lemma_insert(
        o: &Self,
        f: &Self,
        key: K,
        value: V,
        u: Seq<(usize, usize)>,
        lv: int,
        s: usize,
    )
        requires
            Self::insert_step(o, f, key, value, u, lv, s),
        ensures
            f.wf(),
            f@ == o@.insert(u[0].1 as int, (key, value)),
            is_insert_point(o@, key, u[0].1 as int),
            f.height(0) == o.height(0),
            f.n() == o.n() + 1,
            forall|pp: int| 1 <= pp <= o.n() + 1 ==> #[trigger] f.height(pp) == (if pp <= u[0].1 {
                o.height(pp)
            } else if pp == u[0].1 + 1 {
                lv
            } else {
                o.height(pp - 1)
            }),
    {
        lemma_key_order::<K>();
        o.lemma_view();
        Self::lemma_insert_ranks(o, f, key, value, u, lv, s);
        Self::lemma_insert_links(o, f, key, value, u, lv, s);
        o.lemma_slot_injective();
        let r = u[0].1 as int;
        let n = o.n();
        let top = o.height(0);
        // node shapes
        assert forall|pp: int| 0 <= pp <= n + 1 implies #[trigger] f.node_ok(pp) by {
            if pp != r + 1 {
                let p = if pp <= r { pp } else { pp - 1 };
                assert(o.node_ok(p));
                assert(o.slot(p) != s);
            }
        }
        // keys
        assert forall|j: int, k: int| 1 <= j < k <= n + 1 implies key_lt(#[trigger] f.key_at(j), #[trigger] f.key_at(k)) by {
            if j <= r {
                assert(key_lt(o.key_at(j), key)) by {
                    assert(o.key_at(j) == o@[j - 1].0);
                }
                if k > r + 1 {
                    assert(o.key_at(k - 1) == o@[k - 2].0);
                    assert(!key_lt(o.key_at(k - 1), key));
                    assert(key_lt(o.key_at(j), o.key_at(k - 1)));
                }
            } else if j == r + 1 {
                assert(r + 1 <= n);
                assert(!key_lt(o.key_at(r + 1), key));
                assert(!key_eq(o.key_at(r + 1), key));
                assert(key_lt(key, o.key_at(r + 1)));
                if k - 1 > r + 1 {
                    assert(key_lt(o.key_at(r + 1), o.key_at(k - 1)));
                }
            }
        }
        // the order
        assert forall|j: int, k: int| 0 <= j < k < f.n() implies #[trigger] f.order@[j] != #[trigger] f.order@[k] by {
            assert(f.slot(j + 1) != f.slot(k + 1));
        }
        assert forall|j: int| 0 <= j < f.n() implies 1 <= #[trigger] f.order@[j] < f.nodes@.len() by {
            assert(f.slot(j + 1) == f.order@[j]);
        }
        // free slots
        assert forall|j: int| 0 <= j < f.free@.len() implies 1 <= #[trigger] f.free@[j] < f.nodes@.len()
            && f.nodes@[f.free@[j] as int].entry is None by {
            assert(o.free@[j] == f.free@[j]);
            if f.free@.len() < o.free@.len() {
                assert(o.free@[j] != o.free@[o.free@.len() - 1]);
            }
            let t = f.free@[j] as int;
            assert(f.nodes@[t].forwards@.len() == o.nodes@[t].forwards@.len());
        }
        assert(f.free@.no_duplicates()) by {
            assert forall|j: int, k: int| 0 <= j < f.free@.len() && 0 <= k < f.free@.len() && j != k
                implies f.free@[j] != f.free@[k] by {
                assert(o.free@[j] != o.free@[k]);
            }
        }
        // the top level
        if top > 1 {
            let tl = top - 1;
            assert(o.node_ok(0));
            assert(o.links_ok(0, tl));
            assert(o.search_ok(key, u[tl], tl));
            if o.fwd(0, tl) is None {
                let up = u[tl].1 as int;
                if up != 0 {
                    assert(o.height(up) <= tl);
                }
                assert(f.fs(u[tl].0 as int, tl) == Some(s));
            } else if u[tl].0 == 0 {
                if tl < lv {
                    assert(f.fs(u[tl].0 as int, tl) == Some(s));
                } else {
                    assert(f.fs(u[tl].0 as int, tl) == o.fs(u[tl].0 as int, tl));
                }
            } else {
                assert(f.fs(0, tl) == o.fs(0, tl));
            }
        }
        assert(f@ =~= o@.insert(r, (key, value))) by {
            assert forall|j: int| 0 <= j < f@.len() implies #[trigger] f@[j] == o@.insert(r, (key, value))[j] by {
                if j != r {
                    let p = if j < r { j + 1 } else { j };
                    assert(o.slot(p) != s);
                    assert(f.nodes@[o.slot(p) as int].forwards@.len() == o.nodes@[o.slot(p) as int].forwards@.len());
                }
            }
        }
    }

    /// Adding an empty level on top of the header keeps the list well formed,
    /// but for the demand that the top level be in use.
    pub(super) proof fn lemma_grow(a: &Self, b: &Self)
        requires
            a.wf_core(),
            b.order == a.order,
            b.length == a.length,
            b.free == a.free,
            b.p_numerator == a.p_numerator,
            b.p_denominator == a.p_denominator,
            b.nodes@.len() == a.nodes@.len(),
            forall|t: int| 1 <= t < a.nodes@.len() ==> #[trigger] b.nodes@[t] == a.nodes@[t],
            b.nodes@[0].entry == a.nodes@[0].entry,
            b.nodes@[0].forwards@ == a.nodes@[0].forwards@.push(None),
            b.nodes@[0].distance@ == a.nodes@[0].distance@.push((a.n() + 1) as usize),
            a.n() + 1 <= usize::MAX,
        ensures
            b.wf_core(),
            b@ == a@,
            forall|p: int| 1 <= p <= a.n() ==> #[trigger] b.key_at(p) == a.key_at(p) && b.height(p) == a.height(p),
            forall|p: int, i: int| 0 <= p <= a.n() && 0 <= i < a.height(p) ==> #[trigger] b.span(p, i) == a.span(p, i)
                && b.fwd(p, i) == a.fwd(p, i),
            b.height(0) == a.height(0) + 1,
    {
        a.lemma_slot_injective();
        let top = a.height(0);
        assert forall|p: int| 1 <= p <= a.n() implies #[trigger] b.key_at(p) == a.key_at(p) && b.height(p) == a.height(p) by {
            assert(b.nodes@[a.slot(p) as int] == a.nodes@[a.slot(p) as int]);
        }
        assert forall|p: int, i: int| 0 <= p <= a.n() && 0 <= i < a.height(p) implies #[trigger] b.span(p, i) == a.span(p, i)
            && b.fwd(p, i) == a.fwd(p, i) by {
            assert(a.node_ok(p));
            if p > 0 {
                assert(b.nodes@[a.slot(p) as int] == a.nodes@[a.slot(p) as int]);
            }
        }
        assert forall|p: int| 0 <= p <= b.n() implies #[trigger] b.node_ok(p) by {
            assert(a.node_ok(p));
            if p > 0 {
                assert(b.nodes@[a.slot(p) as int] == a.nodes@[a.slot(p) as int]);
            }
        }
        assert forall|p: int, i: int| 0 <= p <= b.n() && 0 <= i < b.height(p) implies #[trigger] b.links_ok(p, i) by {
            assert(a.node_ok(p));
            if p == 0 && i == top {
                assert forall|rr: int| p < rr < p + b.span(p, i) implies #[trigger] b.height(rr) <= i by {
                    assert(a.node_ok(rr));
                }
            } else {
                assert(a.links_ok(p, i));
                assert forall|rr: int| p < rr < p + b.span(p, i) implies #[trigger] b.height(rr) <= i by {
                    assert(a.height(rr) <= i);
                }
                let q = p + a.span(p, i);
                if q <= a.n() {
                    assert(b.height(q) == a.height(q));
                }
            }
        }
        assert forall|j: int, k: int| 1 <= j < k <= b.n() implies key_lt(#[trigger] b.key_at(j), #[trigger] b.key_at(k)) by {
            assert(key_lt(a.key_at(j), a.key_at(k)));
        }
        assert forall|j: int| 0 <= j < b.free@.len() implies 1 <= #[trigger] b.free@[j] < b.nodes@.len()
            && b.nodes@[b.free@[j] as int].entry is None by {
            assert(b.nodes@[b.free@[j] as int] == a.nodes@[a.free@[j] as int]);
        }
        assert(b@ =~= a@) by {
            assert forall|j: int| 0 <= j < b@.len() implies #[trigger] b@[j] == a@[j] by {
                assert(b.nodes@[a.slot(j + 1) as int] == a.nodes@[a.slot(j + 1) as int]);
            }
        }
    }

    /// Replacing the value of the entry at rank `p` keeps the list well formed.
    pub(super) proof fn lemma_set_value(a: &Self, b: &Self, p: int, value: V)
        requires
            a.wf(),
            1 <= p <= a.n(),
            b.order == a.order,
            b.length == a.length,
            b.free == a.free,
            b.p_numerator == a.p_numerator,
            b.p_denominator == a.p_denominator,
            b.nodes@.len() == a.nodes@.len(),
            forall|t: int| 0 <= t < a.nodes@.len() && t != a.slot(p) ==> #[trigger] b.nodes@[t] == a.nodes@[t],
            b.nodes@[a.slot(p) as int].entry == Some((a.key_at(p), value)),
            b.nodes@[a.slot(p) as int].forwards == a.nodes@[a.slot(p) as int].forwards,
            b.nodes@[a.slot(p) as int].distance == a.nodes@[a.slot(p) as int].distance,
        ensures
            b.wf(),
            b@ == a@.update(p - 1, (a@[p - 1].0, value)),
            b.height(0) == a.height(0),
    {
        a.lemma_slot_injective();
        a.lemma_view();
        assert forall|pp: int| 0 <= pp <= a.n() implies #[trigger] b.height(pp) == a.height(pp)
            && b.node_ok(pp) == a.node_ok(pp)
            && (pp > 0 ==> b.key_at(pp) == a.key_at(pp)) by {
            if pp != p {
                assert(b.nodes@[a.slot(pp) as int] == a.nodes@[a.slot(pp) as int]);
            }
        }
        assert forall|pp: int| 0 <= pp <= b.n() implies #[trigger] b.node_ok(pp) by {
            assert(a.node_ok(pp));
            assert(b.height(pp) == a.height(pp));
        }
        assert forall|pp: int, i: int| 0 <= pp <= b.n() && 0 <= i < b.height(pp) implies #[trigger] b.links_ok(pp, i) by {
            assert(b.height(pp) == a.height(pp));
            assert(a.links_ok(pp, i));
            if pp != p {
                assert(b.nodes@[a.slot(pp) as int] == a.nodes@[a.slot(pp) as int]);
            }
            assert forall|rr: int| pp < rr < pp + b.span(pp, i) implies #[trigger] b.height(rr) <= i by {
                assert(a.height(rr) <= i);
                assert(b.height(rr) == a.height(rr));
            }
            let q = pp + a.span(pp, i);
            if q <= a.n() {
                assert(b.height(q) == a.height(q));
            }
        }
        assert forall|j: int, k: int| 1 <= j < k <= b.n() implies key_lt(#[trigger] b.key_at(j), #[trigger] b.key_at(k)) by {
            assert(key_lt(a.key_at(j), a.key_at(k)));
            assert(b.key_at(j) == a.key_at(j));
            assert(b.key_at(k) == a.key_at(k));
        }
        assert forall|j: int| 0 <= j < b.free@.len() implies 1 <= #[trigger] b.free@[j] < b.nodes@.len()
            && b.nodes@[b.free@[j] as int].entry is None by {
            assert(a.nodes@[a.free@[j] as int].entry is None);
            assert(a.node_ok(p));
            assert(b.nodes@[a.free@[j] as int] == a.nodes@[a.free@[j] as int]);
        }
        assert(b.height(0) == a.height(0));
        assert(b@ =~= a@.update(p - 1, (a@[p - 1].0, value))) by {
            assert forall|j: int| 0 <= j < b@.len() implies #[trigger] b@[j] == a@.update(p - 1, (a@[p - 1].0, value))[j] by {
                if j != p - 1 {
                    assert(b.nodes@[a.slot(j + 1) as int] == a.nodes@[a.slot(j + 1) as int]);
                } else {
                    assert(a.key_at(p) == a@[p - 1].0);
                }
            }
        }
    }

    /// `f` is `o` with the node at rank `x` (in slot `xs`) unlinked after the
    /// ranks `u`, its slot freed.
    pub(super) open spec fn remove_step(o: &Self, f: &Self, u: Seq<(usize, usize)>, x: int, xs: usize) -> bool {
        &&& o.wf_core()
        &&& u.len() == o.height(0)
        &&& forall|i: int| 0 <= i < u.len() ==> #[trigger] o.remove_ok(x, u[i], i)
        &&& 1 <= x <= o.n()
        &&& xs == o.slot(x)
        &&& f.order@ == o.order@.remove(x - 1)
        &&& f.length == o.length - 1
        &&& 0 < f.p_denominator
        &&& f.p_numerator <= f.p_denominator
        &&& f.nodes@.len() == o.nodes@.len()
        &&& f.free@ == o.free@.push(xs)
        &&& f.nodes@[xs as int].entry is None
        &&& forall|t: int| 0 <= t < o.nodes@.len() && t != xs ==> #[trigger] f.nodes@[t].entry == o.nodes@[t].entry
        &&& forall|t: int| 0 <= t < o.nodes@.len() && t != xs ==> #[trigger] f.nodes@[t].forwards@.len() == o.nodes@[t].forwards@.len()
        &&& forall|t: int| 0 <= t < o.nodes@.len() && t != xs ==> #[trigger] f.nodes@[t].distance@.len() == o.nodes@[t].distance@.len()
        &&& forall|t: int, l: int| #![trigger f.fs(t, l)] 0 <= t < o.nodes@.len() && t != xs && 0 <= l < o.nodes@[t].forwards@.len()
            && !(l < u.len() && t == u[l].0) ==> f.fs(t, l) == o.fs(t, l) && f.ds(t, l) == o.ds(t, l)
        &&& forall|l: int| #![trigger f.fs(u[l].0 as int, l)] 0 <= l < u.len() && l < o.height(x) ==> f.fs(u[l].0 as int, l) == o.fs(xs as int, l)
            && f.ds(u[l].0 as int, l) == o.ds(u[l].0 as int, l) + o.ds(xs as int, l) - 1
        &&& forall|l: int| #![trigger f.fs(u[l].0 as int, l)] 0 <= l < u.len() && o.height(x) <= l ==> f.fs(u[l].0 as int, l) == o.fs(u[l].0 as int, l)
            && f.ds(u[l].0 as int, l) == o.ds(u[l].0 as int, l) - 1
    }

    /// How the ranks of `o` map to those of `f` in a removal step.
    proof fn lemma_remove_ranks(o: &Self, f: &Self, u: Seq<(usize, usize)>, x: int, xs: usize)
        requires
            Self::remove_step(o, f, u, x, xs),
        ensures
            f.n() == o.n() - 1,
            forall|pp: int| 0 <= pp <= o.n() - 1 ==> #[trigger] f.slot(pp) == (if pp < x { o.slot(pp) } else { o.slot(pp + 1) }),
            forall|p: int| 0 <= p <= o.n() && p != x ==> #[trigger] o.slot(p) != xs,
            forall|pp: int| 0 <= pp <= o.n() - 1 ==> #[trigger] f.height(pp) == (if pp < x { o.height(pp) } else { o.height(pp + 1) }),
            forall|pp: int| 1 <= pp <= o.n() - 1 ==> #[trigger] f.key_at(pp) == (if pp < x { o.key_at(pp) } else { o.key_at(pp + 1) }),
            f.height(0) == o.height(0),
            forall|l: int| 0 <= l < u.len() ==> (#[trigger] u[l]).0 == o.slot(u[l].1 as int) && u[l].1 < x
                && u[l].1 + o.span(u[l].1 as int, l) >= x && l < o.height(u[l].1 as int),
    {
        o.lemma_slot_injective();
        assert forall|l: int| 0 <= l < u.len() implies (#[trigger] u[l]).0 == o.slot(u[l].1 as int) && u[l].1 < x
            && u[l].1 + o.span(u[l].1 as int, l) >= x && l < o.height(u[l].1 as int) by {
            assert(o.remove_ok(x, u[l], l));
        }
        assert forall|pp: int| 0 <= pp <= o.n() - 1 implies #[trigger] f.slot(pp) == (if pp < x { o.slot(pp) } else { o.slot(pp + 1) }) by {}
        assert forall|pp: int| 0 <= pp <= o.n() - 1 implies #[trigger] f.height(pp) == (if pp < x { o.height(pp) } else { o.height(pp + 1) }) by {
            let p = if pp < x { pp } else { pp + 1 };
            assert(o.slot(p) != o.slot(x));
            assert(f.nodes@[o.slot(p) as int].forwards@.len() == o.nodes@[o.slot(p) as int].forwards@.len());
        }
        assert forall|pp: int| 1 <= pp <= o.n() - 1 implies #[trigger] f.key_at(pp) == (if pp < x { o.key_at(pp) } else { o.key_at(pp + 1) }) by {
            let p = if pp < x { pp } else { pp + 1 };
            assert(o.slot(p) != o.slot(x));
            assert(f.nodes@[o.slot(p) as int].entry == o.nodes@[o.slot(p) as int].entry);
        }
        assert(f.nodes@[0].forwards@.len() == o.nodes@[0].forwards@.len());
    }

    /// Every link of `f` is right after a removal step.
    #[verifier::rlimit(100)]
    proof fn lemma_remove_links(o: &Self, f: &Self, u: Seq<(usize, usize)>, x: int, xs: usize)
        requires
            Self::remove_step(o, f, u, x, xs),
        ensures
            forall|pp: int, i: int| 0 <= pp <= o.n() - 1 && 0 <= i < f.height(pp) ==> #[trigger] f.links_ok(pp, i),
    {
        Self::lemma_remove_ranks(o, f, u, x, xs);
        o.lemma_slot_injective();
        let n = o.n();
        assert(o.node_ok(x));
        assert forall|pp: int, i: int| 0 <= pp <= n - 1 && 0 <= i < f.height(pp) implies #[trigger] f.links_ok(pp, i) by {
            if pp < x {
                let p = pp;
                assert(o.node_ok(p));
                assert(o.links_ok(p, i));
                let qo = p + o.span(p, i);
                let up = u[i].1 as int;
                assert(o.node_ok(up));
                assert(o.links_ok(up, i));
                if o.slot(p) == u[i].0 {
                    assert(p == up);
                    if i < o.height(x) {
                        assert(f.fs(u[i].0 as int, i) == o.fs(xs as int, i));
                        assert(o.links_ok(x, i));
                        assert(qo == x);
                        let qx = x + o.span(x, i);
                        assert forall|rr: int| pp < rr < pp + f.span(pp, i) implies #[trigger] f.height(rr) <= i by {
                            if rr < x {
                                assert(o.height(rr) <= i);
                            } else {
                                assert(o.height(rr + 1) <= i);
                            }
                        }
                        if qx <= n {
                            assert(f.slot(qx - 1) == o.slot(qx));
                        }
                    } else {
                        assert(f.fs(u[i].0 as int, i) == o.fs(u[i].0 as int, i));
                        assert(qo != x);
                        assert forall|rr: int| pp < rr < pp + f.span(pp, i) implies #[trigger] f.height(rr) <= i by {
                            if rr < x {
                                assert(o.height(rr) <= i);
                            } else {
                                assert(o.height(rr + 1) <= i);
                            }
                        }
                        if qo <= n {
                            assert(f.slot(qo - 1) == o.slot(qo));
                        }
                    }
                } else {
                    assert(o.slot(p) != xs);
                    assert(f.fs(o.slot(p) as int, i) == o.fs(o.slot(p) as int, i));
                    if p < up {
                        if qo > up {
                            assert(o.height(up) <= i);
                        }
                    } else {
                        assert(up < p);
                        assert(o.height(p) <= i);
                    }
                    assert(qo < x);
                    assert forall|rr: int| pp < rr < pp + f.span(pp, i) implies #[trigger] f.height(rr) <= i by {
                        assert(o.height(rr) <= i);
                    }
                }
            } else {
                let p = pp + 1;
                assert(o.node_ok(p));
                assert(o.links_ok(p, i));
                let qo = p + o.span(p, i);
                if i < u.len() && o.slot(p) == u[i].0 {
                    assert(p == u[i].1);
                }
                assert(o.slot(p) != xs);
                assert(f.fs(o.slot(p) as int, i) == o.fs(o.slot(p) as int, i));
                assert forall|rr: int| pp < rr < pp + f.span(pp, i) implies #[trigger] f.height(rr) <= i by {
                    assert(o.height(rr + 1) <= i);
                }
                if qo <= n {
                    assert(f.slot(qo - 1) == o.slot(qo));
                }
            }
        }
    }

    /// Unlinking the node at rank `x` after the ranks `u` yields a list,
    /// well formed but perhaps for an unused top level, with that entry gone.
    #[verifier::rlimit(100)]
    pub(super) proof fn lemma_remove(o: &Self, f: &Self, u: Seq<(usize, usize)>, x: int, xs: usize)
        requires
            Self::remove_step(o, f, u, x, xs),
        ensures
            f.wf_core(),
            f@ == o@.remove(x - 1),
            f.height(0) == o.height(0),
    {
        lemma_key_order::<K>();
        Self::lemma_remove_ranks(o, f, u, x, xs);
        Self::lemma_remove_links(o, f, u, x, xs);
        o.lemma_slot_injective();
        let n = o.n();
        assert forall|pp: int| 0 <= pp <= n - 1 implies #[trigger] f.node_ok(pp) by {
            let p = if pp < x { pp } else { pp + 1 };
            assert(o.node_ok(p));
            assert(o.slot(p) != xs);
            assert(f.nodes@[o.slot(p) as int].distance@.len() == o.nodes@[o.slot(p) as int].distance@.len());
            assert(f.nodes@[o.slot(p) as int].entry == o.nodes@[o.slot(p) as int].entry);
        }
        assert forall|j: int, k: int| 1 <= j < k <= n - 1 implies key_lt(#[trigger] f.key_at(j), #[trigger] f.key_at(k)) by {
            let jj = if j < x { j } else { j + 1 };
            let kk = if k < x { k } else { k + 1 };
            assert(key_lt(o.key_at(jj), o.key_at(kk)));
        }
        assert forall|j: int, k: int| 0 <= j < k < f.n() implies #[trigger] f.order@[j] != #[trigger] f.order@[k] by {
            assert(f.slot(j + 1) != f.slot(k + 1)) by {
                let jj = if j + 1 < x { j + 1 } else { j + 2 };
                let kk = if k + 1 < x { k + 1 } else { k + 2 };
                assert(o.slot(jj) != o.slot(kk));
            }
        }
        assert forall|j: int| 0 <= j < f.n() implies 1 <= #[trigger] f.order@[j] < f.nodes@.len() by {
            assert(f.slot(j + 1) == f.order@[j]);
            let jj = if j + 1 < x { j + 1 } else { j + 2 };
            assert(o.slot(jj) < o.nodes@.len());
            assert(o.slot(jj) != 0);
        }
        assert(o.node_ok(x));
        assert forall|j: int| 0 <= j < f.free@.len() implies 1 <= #[trigger] f.free@[j] < f.nodes@.len()
            && f.nodes@[f.free@[j] as int].entry is None by {
            if j < o.free@.len() {
                let t = o.free@[j] as int;
                assert(f.free@[j] == o.free@[j]);
                assert(t != xs);
                assert(f.nodes@[t].entry == o.nodes@[t].entry);
            }
        }
        assert(f.free@.no_duplicates()) by {
            assert forall|j: int, k: int| 0 <= j < f.free@.len() && 0 <= k < f.free@.len() && j != k
                implies f.free@[j] != f.free@[k] by {
                if j < o.free@.len() && k < o.free@.len() {
                    assert(o.free@[j] != o.free@[k]);
                } else if j < o.free@.len() {
                    assert(o.nodes@[o.free@[j] as int].entry is None);
                } else {
                    assert(o.nodes@[o.free@[k] as int].entry is None);
                }
            }
        }
        assert(f.nodes@[0].entry == o.nodes@[0].entry);
        assert(f@ =~= o@.remove(x - 1)) by {
            assert forall|j: int| 0 <= j < f@.len() implies #[trigger] f@[j] == o@.remove(x - 1)[j] by {
                let p = if j + 1 < x { j + 1 } else { j + 2 };
                assert(o.slot(p) != xs);
                assert(f.nodes@[o.slot(p) as int].entry == o.nodes@[o.slot(p) as int].entry);
            }
        }
    }

    /// Dropping an unused top level of the header keeps the list well formed.
    pub(super) proof fn lemma_shrink(a: &Self, b: &Self)
        requires
            a.wf_core(),
            a.height(0) > 1,
            a.fwd(0, a.height(0) - 1) is None,
            b.order == a.order,
            b.length == a.length,
            b.free == a.free,
            b.p_numerator == a.p_numerator,
            b.p_denominator == a.p_denominator,
            b.nodes@.len() == a.nodes@.len(),
            forall|t: int| 1 <= t < a.nodes@.len() ==> #[trigger] b.nodes@[t] == a.nodes@[t],
            b.nodes@[0].entry == a.nodes@[0].entry,
            b.nodes@[0].forwards@ == a.nodes@[0].forwards@.drop_last(),
            b.nodes@[0].distance@ == a.nodes@[0].distance@.drop_last(),
        ensures
            b.wf_core(),
            b@ == a@,
            b.height(0) == a.height(0) - 1,
    {
        a.lemma_slot_injective();
        let top = a.height(0) - 1;
        assert(a.node_ok(0));
        assert(a.links_ok(0, top));
        assert forall|p: int| 1 <= p <= a.n() implies #[trigger] b.height(p) == a.height(p) && a.height(p) <= top by {
            assert(b.nodes@[a.slot(p) as int] == a.nodes@[a.slot(p) as int]);
            assert(a.node_ok(p));
        }
        assert forall|p: int| 0 <= p <= b.n() implies #[trigger] b.node_ok(p) by {
            assert(a.node_ok(p));
            if p > 0 {
                assert(b.nodes@[a.slot(p) as int] == a.nodes@[a.slot(p) as int]);
                assert(b.height(p) == a.height(p));
            }
        }
        assert forall|p: int, i: int| 0 <= p <= b.n() && 0 <= i < b.height(p) implies #[trigger] b.links_ok(p, i) by {
            assert(a.node_ok(p));
            if p > 0 {
                assert(b.nodes@[a.slot(p) as int] == a.nodes@[a.slot(p) as int]);
                assert(b.height(p) == a.height(p));
            }
            assert(a.links_ok(p, i));
            assert forall|rr: int| p < rr < p + b.span(p, i) implies #[trigger] b.height(rr) <= i by {
                assert(a.height(rr) <= i);
                assert(b.height(rr) == a.height(rr));
            }
            let q = p + a.span(p, i);
            if q <= a.n() {
                assert(b.height(q) == a.height(q));
            }
        }
        assert forall|j: int, k: int| 1 <= j < k <= b.n() implies key_lt(#[trigger] b.key_at(j), #[trigger] b.key_at(k)) by {
            assert(key_lt(a.key_at(j), a.key_at(k)));
            assert(b.nodes@[a.slot(j) as int] == a.nodes@[a.slot(j) as int]);
            assert(b.nodes@[a.slot(k) as int] == a.nodes@[a.slot(k) as int]);
        }
        assert forall|j: int| 0 <= j < b.free@.len() implies 1 <= #[trigger] b.free@[j] < b.nodes@.len()
            && b.nodes@[b.free@[j] as int].entry is None by {
            assert(b.nodes@[b.free@[j] as int] == a.nodes@[a.free@[j] as int]);
        }
        assert(b@ =~= a@) by {
            assert forall|j: int| 0 <= j < b@.len() implies #[trigger] b@[j] == a@[j] by {
                assert(b.nodes@[a.slot(j + 1) as int] == a.nodes@[a.slot(j + 1) as int]);
            }
        }
    }

    /// A well-formed empty list has exactly one level.
    pub(super) proof fn lemma_empty_one_level(&self)
        requires
            self.wf(),
            self@.len() == 0,
        ensures
            self.levels() == 1,
    {
        let top = self.height(0) - 1;
        assert(self.node_ok(0));
        if top > 0 {
            assert(self.links_ok(0, top));
        }
    }

    /// From rank `p`, the base-level walk meets the `n - p` nodes after it.
    proof fn lemma_walk_from(&self, p: int, fuel: nat)
        requires
            self.wf_core(),
            0 <= p <= self.n(),
            fuel >= self.n() - p + 1,
        ensures
            self.walk_len(self.slot(p), fuel) == self.n() - p,
        decreases self.n() - p,
    {
        assert(self.node_ok(p));
        assert(self.links_ok(p, 0));
        if p < self.n() {
            assert(self.node_ok(p + 1));
            assert(self.height(p + 1) >= 1);
            self.lemma_walk_from(p + 1, (fuel - 1) as nat);
        }
    }

    pub(super) proof fn lemma_walk(&self, c: usize, fuel: nat)
        requires
            self.wf_core(),
            c == 0,
            fuel == self.nodes@.len(),
        ensures
            self.walk_len(c, fuel) == self.n(),
    {
        self.lemma_walk_from(0, fuel);
    }

    /// Well-formedness does not depend on the level-growth flag or on the
    /// leveling probability, as long as the latter is a valid ratio.
    pub(super) proof fn lemma_wf_settings(a: &Self, b: &Self)
        requires
            a.wf(),
            a.nodes == b.nodes,
            a.free == b.free,
            a.length == b.length,
            a.order == b.order,
            0 < b.p_denominator,
            b.p_numerator <= b.p_denominator,
        ensures
            b.wf(),
            b@ == a@,
    {
        assert forall|p: int, i: int| 0 <= p <= b.n() && 0 <= i < b.height(p) implies #[trigger] b.links_ok(p, i) by {
            assert(a.links_ok(p, i));
            assert forall|r: int| #[trigger] b.height(r) == a.height(r) by {}
        }
        assert forall|p: int| 0 <= p <= b.n() implies #[trigger] b.node_ok(p) by {
            assert(a.node_ok(p));
        }
        assert forall|j: int, k: int| 1 <= j < k <= b.n() implies key_lt(#[trigger] b.key_at(j), #[trigger] b.key_at(k)) by {
            assert(key_lt(a.key_at(j), a.key_at(k)));
        }
        assert(b@ =~= a@);
    }

    pub(super) proof fn lemma_view(&self)
        requires
            self.wf_core(),
        ensures
            self@.len() == self.n(),
            forall|p: int| 1 <= p <= self.n() ==> #[trigger] self.key_at(p) == self@[p - 1].0,
            sorted_keys(self@),
    {
        assert forall|j: int, k: int| 0 <= j < k < self@.len() implies key_lt(#[trigger] self@[j].0, #[trigger] self@[k].0) by {
            assert(self.key_at(j + 1) == self@[j].0);
            assert(self.key_at(k + 1) == self@[k].0);
        }
    }
}

} // verus!
