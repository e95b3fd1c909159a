use crate::answer::best_of;
use crate::answer::cand_at;
use crate::answer::expand;
use crate::answer::layer_answer;
use crate::answer::list_at;
use crate::answer::run;
use crate::answer::start_state;
use crate::answer::state_of;
use crate::answer::visit;
use crate::answer::walk_from;
use crate::cand::closer;
use crate::cand::distinct_ids;
use crate::cand::has_id;
use crate::cand::insert_sorted;
use crate::cand::is_closer;
use crate::cand::lemma_drop_last_ids;
use crate::cand::lemma_insert_ids;
use crate::cand::sorted;
use crate::cand::Cand;
use crate::index::Index;
use crate::metrics::similarity;
use crate::metrics::similarity_of;
use vstd::prelude::*;

verus! {

/// The number of slots among the first `n` that a search has not seen yet.
pub open(crate) spec fn unseen_upto(seen: Seq<bool>, n: nat) -> nat
    decreases n,
{
    if n == 0 {
        0
    } else {
        unseen_upto(seen, (n - 1) as nat) + if seen[n - 1] {
            0nat
        } else {
            1nat
        }
    }
}

/// Seeing one more slot takes one from the count.
pub(crate) proof fn lemma_unseen_mark(seen: Seq<bool>, n: nat, k: int)
    requires
        n <= seen.len(),
        0 <= k < seen.len(),
        !seen[k],
    ensures
        unseen_upto(seen, n) == unseen_upto(seen.update(k, true), n) + if k < n {
            1nat
        } else {
            0nat
        },
    decreases n,
{
    if n > 0 {
        lemma_unseen_mark(seen, (n - 1) as nat, k);
    }
}

/// No more slots are unseen than there are slots.
pub(crate) proof fn lemma_unseen_bound(seen: Seq<bool>, n: nat)
    ensures
        unseen_upto(seen, n) <= n,
    decreases n,
{
    if n > 0 {
        lemma_unseen_bound(seen, (n - 1) as nat);
    }
}

/// A fresh list of marks, none of them set.
pub(crate) fn no_marks(n: usize) -> (v: Vec<bool>)
    ensures
        v@.len() == n,
        forall|i: int| 0 <= i < n ==> !v@[i],
{
    let mut v: Vec<bool> = Vec::new();
    let mut i: usize = 0;
    while i < n
        invariant
            i <= n,
            v@.len() == i,
            forall|j: int| 0 <= j < i ==> !v@[j],
        decreases n - i,
    {
        v.push(false);
        i = i + 1;
    }
    v
}

impl Index {
    /// How close the node in slot `i` is to a query.
    pub open(crate) spec fn sim_to(&self, q: Seq<i32>, i: int) -> int {
        similarity_of(self.mfunc_kind, q, self.vector_of(i))
    }

    /// A candidate is in order: its node stands on the layer, and its
    /// similarity is that of its node to the query.
    pub open(crate) spec fn cand_ok(&self, q: Seq<i32>, l: int, c: Cand) -> bool {
        self.on_layer(c.id as int, l) && c.sim == self.sim_to(q, c.id as int)
    }

    /// Every candidate of a list is in order.
    pub open(crate) spec fn cands_ok(&self, q: Seq<i32>, l: int, s: Seq<Cand>) -> bool {
        forall|i: int| 0 <= i < s.len() ==> #[trigger] self.cand_ok(q, l, s[i])
    }

    /// The candidate that stands for the node in slot `i` under a query.
    pub open(crate) spec fn cand_of(&self, q: Seq<i32>, i: int) -> Cand {
        Cand { sim: self.sim_to(q, i) as i128, id: i as usize }
    }

    /// Measures the node in slot `i` against a query.
    pub(crate) fn measure(&self, q: &Vec<i32>, i: usize) -> (c: Cand)
        requires
            self.wf_but_caps(),
            self.is_live(i as int),
        ensures
            c.id == i,
            c.sim == self.sim_to(q@, i as int),
            c == self.cand_of(q@, i as int),
    {
        proof {
            assert(self.node_ok(i as int));
        }
        let sim = similarity(self.mfunc_kind, q.as_slice(), self.nodes[i].data.as_slice());
        Cand { sim, id: i }
    }

    /// Whether no neighbour of the node in slot `i` on layer `l` is closer to
    /// the query than the node itself.
    pub open(crate) spec fn is_local_best(&self, q: Seq<i32>, i: int, l: int) -> bool {
        forall|k: int|
            0 <= k < self.adj(i, l).len() ==> self.sim_to(q, #[trigger] self.adj(i, l)[k] as int)
                <= self.sim_to(q, i)
    }

    /// The greedy walk on one layer: from `start`, move to the closest
    /// neighbour as long as one is strictly closer than the node at hand.
    pub(crate) fn walk(&self, q: &Vec<i32>, start: usize, l: usize) -> (r: usize)
        requires
            self.wf_but_caps(),
            self.on_layer(start as int, l as int),
        ensures
            self.on_layer(r as int, l as int),
            self.sim_to(q@, r as int) >= self.sim_to(q@, start as int),
            self.is_local_best(q@, r as int, l as int),
            r == walk_from(
                self.mfunc_kind,
                self.nodes@,
                q@,
                cand_at(self.mfunc_kind, self.nodes@, q@, start as int),
                l as int,
            ),
    {
        let mut cur = self.measure(q, start);
        let ghost first = cur;
        loop
            invariant
                self.wf_but_caps(),
                self.cand_ok(q@, l as int, cur),
                self.sim_to(q@, cur.id as int) >= self.sim_to(q@, start as int),
                first == cand_at(self.mfunc_kind, self.nodes@, q@, start as int),
                walk_from(self.mfunc_kind, self.nodes@, q@, first, l as int) == walk_from(
                    self.mfunc_kind,
                    self.nodes@,
                    q@,
                    cur,
                    l as int,
                ),
            ensures
                self.on_layer(cur.id as int, l as int),
                self.sim_to(q@, cur.id as int) >= self.sim_to(q@, start as int),
                self.is_local_best(q@, cur.id as int, l as int),
                cur.id == walk_from(self.mfunc_kind, self.nodes@, q@, first, l as int),
            decreases i128::MAX - cur.sim,
        {
            let mut best = cur;
            let mut k: usize = 0;
            proof {
                assert(self.node_ok(cur.id as int));
                assert(self.list_ok(cur.id as int, l as int));
            }
            while k < self.nodes[cur.id].neighbors[l].len()
                invariant
                    self.wf_but_caps(),
                    self.cand_ok(q@, l as int, cur),
                    self.cand_ok(q@, l as int, best),
                    self.list_ok(cur.id as int, l as int),
                    k <= self.adj(cur.id as int, l as int).len(),
                    best.sim >= cur.sim,
                    best.sim == cur.sim ==> best == cur,
                    best_of(
                        self.mfunc_kind,
                        self.nodes@,
                        q@,
                        list_at(self.nodes@, cur.id as int, l as int),
                        0,
                        cur,
                    ) == best_of(
                        self.mfunc_kind,
                        self.nodes@,
                        q@,
                        list_at(self.nodes@, cur.id as int, l as int),
                        k as int,
                        best,
                    ),
                    forall|t: int|
                        0 <= t < k ==> self.sim_to(
                            q@,
                            #[trigger] self.adj(cur.id as int, l as int)[t] as int,
                        ) <= best.sim,
                decreases self.adj(cur.id as int, l as int).len() - k,
            {
                let n = self.nodes[cur.id].neighbors[l][k];
                proof {
                    assert(self.edge_ok(
                        cur.id as int,
                        l as int,
                        self.adj(cur.id as int, l as int)[k as int] as int,
                    ));
                }
                let c = self.measure(q, n);
                if c.sim > best.sim {
                    best = c;
                }
                k = k + 1;
            }
            if best.sim == cur.sim {
                break ;
            }
            cur = best;
        }
        cur.id
    }
}


/// In a sorted list of candidates that all measure one query, no slot stands
/// twice.
pub(crate) proof fn lemma_sorted_distinct(s: Seq<Cand>)
    requires
        sorted(s),
        forall|i: int, j: int|
            0 <= i < s.len() && 0 <= j < s.len() && (#[trigger] s[i]).id == (#[trigger] s[j]).id
                ==> s[i].sim == s[j].sim,
    ensures
        distinct_ids(s),
{
    assert forall|i: int, j: int| 0 <= i < j < s.len() implies (#[trigger] s[i]).id != (
    #[trigger] s[j]).id by {
        assert(closer(s[i], s[j]));
    }
}

/// What a list holds once its first candidate has been taken off.
pub(crate) proof fn lemma_remove_first(s: Seq<Cand>)
    requires
        s.len() > 0,
        sorted(s),
        distinct_ids(s),
    ensures
        sorted(s.remove(0)),
        distinct_ids(s.remove(0)),
        forall|id: usize| #[trigger] has_id(s.remove(0), id) <==> (has_id(s, id) && id != s[0].id),
        forall|t: int| 0 <= t < s.remove(0).len() ==> closer(s[0], #[trigger] s.remove(0)[t]),
{
    let r = s.remove(0);
    assert forall|i: int, j: int| 0 <= i < j < r.len() implies closer(
        #[trigger] r[i],
        #[trigger] r[j],
    ) by {
        assert(closer(s[i + 1], s[j + 1]));
    }
    assert forall|i: int, j: int| 0 <= i < j < r.len() implies (#[trigger] r[i]).id != (
    #[trigger] r[j]).id by {
        assert(s[i + 1].id != s[j + 1].id);
    }
    assert forall|id: usize| #[trigger] has_id(r, id) <==> (has_id(s, id) && id != s[0].id) by {
        if has_id(r, id) {
            let i = choose|i: int| 0 <= i < r.len() && (#[trigger] r[i]).id == id;
            assert(s[i + 1].id == id);
            assert(s[0].id != s[i + 1].id);
        }
        if has_id(s, id) && id != s[0].id {
            let i = choose|i: int| 0 <= i < s.len() && (#[trigger] s[i]).id == id;
            assert(r[i - 1].id == id);
        }
    }
    assert forall|t: int| 0 <= t < r.len() implies closer(s[0], #[trigger] r[t]) by {
        assert(closer(s[0], s[t + 1]));
    }
}

impl Index {
    /// Whether a result list of width `ef` has no room for the node in slot
    /// `v`: it is full, and each of its candidates is closer to the query.
    pub open(crate) spec fn beaten(&self, q: Seq<i32>, results: Seq<Cand>, ef: int, v: int) -> bool {
        &&& results.len() >= ef
        &&& forall|t: int|
            0 <= t < results.len() ==> closer(#[trigger] results[t], self.cand_of(q, v))
    }

    /// Every slot that the search has seen is among the results or beaten by
    /// them.
    pub open(crate) spec fn settled(
        &self,
        q: Seq<i32>,
        seen: Seq<bool>,
        results: Seq<Cand>,
        ef: int,
    ) -> bool {
        forall|v: int|
            0 <= v < seen.len() && #[trigger] seen[v] ==> has_id(results, v as usize)
                || self.beaten(q, results, ef, v)
    }

    /// Every neighbour of the node in slot `i` on layer `l` has been seen.
    pub open(crate) spec fn expanded(&self, seen: Seq<bool>, i: int, l: int) -> bool {
        forall|k: int|
            0 <= k < self.adj(i, l).len() ==> (#[trigger] self.adj(i, l)[k]) < seen.len()
                && seen[self.adj(i, l)[k] as int]
    }

    /// Every result is still a candidate, or expanded, or the node `cur`
    /// that the search is expanding.
    pub open(crate) spec fn pending_ok(
        &self,
        seen: Seq<bool>,
        cands: Seq<Cand>,
        results: Seq<Cand>,
        l: int,
        cur: int,
    ) -> bool {
        forall|t: int|
            0 <= t < results.len() ==> has_id(cands, (#[trigger] results[t]).id) || self.expanded(
                seen,
                results[t].id as int,
                l,
            ) || results[t].id == cur
    }

    /// Every candidate of a list has been seen.
    pub open(crate) spec fn all_seen(seen: Seq<bool>, s: Seq<Cand>) -> bool {
        forall|t: int| 0 <= t < s.len() ==> (#[trigger] s[t]).id < seen.len() && seen[s[t].id as int]
    }

    /// The result of a search on one layer is closed: every neighbour of a
    /// result is a result itself, or the list is full and each of its
    /// candidates is closer to the query than that neighbour.
    pub open(crate) spec fn closed_results(
        &self,
        q: Seq<i32>,
        l: int,
        ef: int,
        results: Seq<Cand>,
    ) -> bool {
        forall|t: int, k: int|
            0 <= t < results.len() && 0 <= k < self.adj(results[t].id as int, l).len() ==> has_id(
                results,
                #[trigger] self.adj(results[t].id as int, l)[k],
            ) || self.beaten(q, results, ef, self.adj(results[t].id as int, l)[k] as int)
    }

    pub(crate) proof fn lemma_cands_distinct(&self, q: Seq<i32>, l: int, s: Seq<Cand>)
        requires
            sorted(s),
            self.cands_ok(q, l, s),
        ensures
            distinct_ids(s),
            forall|t: int| 0 <= t < s.len() ==> #[trigger] s[t] == self.cand_of(q, s[t].id as int),
    {
        assert forall|i: int, j: int|
            0 <= i < s.len() && 0 <= j < s.len() && (#[trigger] s[i]).id == (#[trigger] s[j]).id
                implies s[i].sim == s[j].sim by {
            assert(self.cand_ok(q, l, s[i]));
            assert(self.cand_ok(q, l, s[j]));
        }
        lemma_sorted_distinct(s);
        assert forall|t: int| 0 <= t < s.len() implies #[trigger] s[t] == self.cand_of(
            q,
            s[t].id as int,
        ) by {
            assert(self.cand_ok(q, l, s[t]));
        }
    }

    pub(crate) proof fn lemma_cands_insert(&self, q: Seq<i32>, l: int, s: Seq<Cand>, pos: int, c: Cand)
        requires
            0 <= pos <= s.len(),
            self.cands_ok(q, l, s),
            self.cand_ok(q, l, c),
        ensures
            self.cands_ok(q, l, s.insert(pos, c)),
    {
        let t = s.insert(pos, c);
        assert forall|i: int| 0 <= i < t.len() implies #[trigger] self.cand_ok(q, l, t[i]) by {
            if i < pos {
                assert(self.cand_ok(q, l, s[i]));
            } else if i > pos {
                assert(self.cand_ok(q, l, s[i - 1]));
            }
        }
    }

    pub(crate) proof fn lemma_all_seen_insert(
        seen: Seq<bool>,
        seen2: Seq<bool>,
        s: Seq<Cand>,
        pos: int,
        c: Cand,
    )
        requires
            0 <= pos <= s.len(),
            Self::all_seen(seen, s),
            c.id < seen.len(),
            seen2 == seen.update(c.id as int, true),
        ensures
            Self::all_seen(seen2, s),
            Self::all_seen(seen2, s.insert(pos, c)),
    {
        let t = s.insert(pos, c);
        assert forall|i: int| 0 <= i < t.len() implies (#[trigger] t[i]).id < seen2.len()
            && seen2[t[i].id as int] by {
            if i < pos {
                assert(seen[s[i].id as int]);
            } else if i > pos {
                assert(seen[s[i - 1].id as int]);
            }
        }
        assert forall|i: int| 0 <= i < s.len() implies (#[trigger] s[i]).id < seen2.len()
            && seen2[s[i].id as int] by {
            assert(seen[s[i].id as int]);
        }
    }

    pub(crate) proof fn lemma_settled_insert(
        &self,
        q: Seq<i32>,
        seen: Seq<bool>,
        seen2: Seq<bool>,
        results: Seq<Cand>,
        ef: int,
        cn: Cand,
        pos: int,
    )
        requires
            self.settled(q, seen, results, ef),
            seen.len() <= usize::MAX,
            0 <= pos <= results.len(),
            cn.id < seen.len(),
            seen2 == seen.update(cn.id as int, true),
            results.len() < ef || (results.len() > 0 && closer(cn, results.last())),
            sorted(results),
        ensures
            self.settled(q, seen2, results.insert(pos, cn), ef),
    {
        let r2 = results.insert(pos, cn);
        lemma_insert_ids(results, pos, cn);
        assert forall|v: int| 0 <= v < seen2.len() && #[trigger] seen2[v] implies has_id(
            r2,
            v as usize,
        ) || self.beaten(q, r2, ef, v) by {
            if v == cn.id {
            } else {
                assert(seen[v]);
                if !has_id(results, v as usize) {
                    assert(self.beaten(q, results, ef, v));
                    let cv = self.cand_of(q, v);
                    assert(closer(results[results.len() - 1], cv));
                    assert forall|t: int| 0 <= t < r2.len() implies closer(
                        #[trigger] r2[t],
                        cv,
                    ) by {
                        if t < pos {
                            assert(closer(results[t], cv));
                        } else if t > pos {
                            assert(closer(results[t - 1], cv));
                        }
                    }
                }
            }
        }
    }

    pub(crate) proof fn lemma_settled_pop(
        &self,
        q: Seq<i32>,
        seen: Seq<bool>,
        results: Seq<Cand>,
        ef: int,
    )
        requires
            self.settled(q, seen, results, ef),
            seen.len() <= usize::MAX,
            results.len() > ef,
            results.len() >= 1,
            sorted(results),
            distinct_ids(results),
            forall|t: int|
                0 <= t < results.len() ==> #[trigger] results[t] == self.cand_of(
                    q,
                    results[t].id as int,
                ),
        ensures
            self.settled(q, seen, results.drop_last(), ef),
    {
        let r2 = results.drop_last();
        let w = results.last();
        lemma_drop_last_ids(results);
        assert forall|v: int| 0 <= v < seen.len() && #[trigger] seen[v] implies has_id(
            r2,
            v as usize,
        ) || self.beaten(q, r2, ef, v) by {
            let cv = self.cand_of(q, v);
            if has_id(results, v as usize) {
                if v == w.id {
                    assert(results[results.len() - 1] == self.cand_of(q, w.id as int));
                    assert forall|t: int| 0 <= t < r2.len() implies closer(
                        #[trigger] r2[t],
                        cv,
                    ) by {
                        assert(closer(results[t], results[results.len() - 1]));
                    }
                }
            } else {
                assert(self.beaten(q, results, ef, v));
                assert forall|t: int| 0 <= t < r2.len() implies closer(#[trigger] r2[t], cv) by {
                    assert(closer(results[t], cv));
                }
            }
        }
    }

    pub(crate) proof fn lemma_settled_reject(
        &self,
        q: Seq<i32>,
        seen: Seq<bool>,
        seen2: Seq<bool>,
        results: Seq<Cand>,
        ef: int,
        cn: Cand,
    )
        requires
            self.settled(q, seen, results, ef),
            seen.len() <= usize::MAX,
            cn.id < seen.len(),
            seen2 == seen.update(cn.id as int, true),
            results.len() >= ef,
            results.len() > 0,
            !closer(cn, results.last()),
            !has_id(results, cn.id),
            sorted(results),
            cn == self.cand_of(q, cn.id as int),
        ensures
            self.settled(q, seen2, results, ef),
    {
        assert forall|v: int| 0 <= v < seen2.len() && #[trigger] seen2[v] implies has_id(
            results,
            v as usize,
        ) || self.beaten(q, results, ef, v) by {
            if v == cn.id {
                let last = results[results.len() - 1];
                assert(last.id != cn.id);
                assert(closer(last, cn));
                assert forall|t: int| 0 <= t < results.len() implies closer(
                    #[trigger] results[t],
                    self.cand_of(q, v),
                ) by {
                    if t < results.len() - 1 {
                        assert(closer(results[t], results[results.len() - 1]));
                    }
                }
            } else {
                assert(seen[v]);
            }
        }
    }

    pub(crate) proof fn lemma_expanded_mono(&self, seen: Seq<bool>, k: int, i: int, l: int)
        requires
            self.expanded(seen, i, l),
            0 <= k < seen.len(),
        ensures
            self.expanded(seen.update(k, true), i, l),
    {
        let seen2 = seen.update(k, true);
        assert forall|t: int| 0 <= t < self.adj(i, l).len() implies (#[trigger] self.adj(
            i,
            l,
        )[t]) < seen2.len() && seen2[self.adj(i, l)[t] as int] by {
            assert(seen[self.adj(i, l)[t] as int]);
        }
    }

    pub(crate) proof fn lemma_pending_mark(
        &self,
        seen: Seq<bool>,
        k: int,
        cands: Seq<Cand>,
        results: Seq<Cand>,
        l: int,
        cur: int,
    )
        requires
            self.pending_ok(seen, cands, results, l, cur),
            0 <= k < seen.len(),
        ensures
            self.pending_ok(seen.update(k, true), cands, results, l, cur),
    {
        let seen2 = seen.update(k, true);
        assert forall|t: int| 0 <= t < results.len() implies has_id(
            cands,
            (#[trigger] results[t]).id,
        ) || self.expanded(seen2, results[t].id as int, l) || results[t].id == cur by {
            if self.expanded(seen, results[t].id as int, l) {
                self.lemma_expanded_mono(seen, k, results[t].id as int, l);
            }
        }
    }

    pub(crate) proof fn lemma_pending_insert(
        &self,
        seen: Seq<bool>,
        cands: Seq<Cand>,
        results: Seq<Cand>,
        l: int,
        cur: int,
        cn: Cand,
        pc: int,
        pr: int,
    )
        requires
            self.pending_ok(seen, cands, results, l, cur),
            0 <= pc <= cands.len(),
            0 <= pr <= results.len(),
        ensures
            self.pending_ok(seen, cands.insert(pc, cn), results.insert(pr, cn), l, cur),
    {
        let c2 = cands.insert(pc, cn);
        let r2 = results.insert(pr, cn);
        lemma_insert_ids(cands, pc, cn);
        assert forall|t: int| 0 <= t < r2.len() implies has_id(c2, (#[trigger] r2[t]).id)
            || self.expanded(seen, r2[t].id as int, l) || r2[t].id == cur by {
            if t < pr {
                assert(r2[t] == results[t]);
            } else if t > pr {
                assert(r2[t] == results[t - 1]);
            }
        }
    }

    pub(crate) proof fn lemma_pending_pop(
        &self,
        seen: Seq<bool>,
        cands: Seq<Cand>,
        results: Seq<Cand>,
        l: int,
        cur: int,
    )
        requires
            self.pending_ok(seen, cands, results, l, cur),
            results.len() > 0,
        ensures
            self.pending_ok(seen, cands, results.drop_last(), l, cur),
    {
        let r2 = results.drop_last();
        assert forall|t: int| 0 <= t < r2.len() implies has_id(cands, (#[trigger] r2[t]).id)
            || self.expanded(seen, r2[t].id as int, l) || r2[t].id == cur by {
            assert(r2[t] == results[t]);
        }
    }
}


impl Index {
    /// Every result has had all its neighbours on the layer seen.
    pub open(crate) spec fn all_expanded(&self, seen: Seq<bool>, results: Seq<Cand>, l: int) -> bool {
        forall|t: int|
            0 <= t < results.len() ==> self.expanded(seen, (#[trigger] results[t]).id as int, l)
    }

    /// What holds of the lists of a search on one layer at every step.
    pub open(crate) spec fn search_state_ok(
        &self,
        q: Seq<i32>,
        l: int,
        ef: int,
        seen: Seq<bool>,
        cands: Seq<Cand>,
        results: Seq<Cand>,
    ) -> bool {
        &&& seen.len() == self.nodes@.len()
        &&& sorted(cands)
        &&& self.cands_ok(q, l, cands)
        &&& Self::all_seen(seen, cands)
        &&& sorted(results)
        &&& self.cands_ok(q, l, results)
        &&& Self::all_seen(seen, results)
        &&& results.len() >= 1
        &&& (results.len() <= ef || results.len() == 1)
        &&& self.settled(q, seen, results, ef)
    }

    /// The search on one layer: from one entry, the `ef` closest nodes that
    /// the search comes by, the closest first.
    ///
    /// The search keeps a frontier of candidates and a list of the best
    /// results so far. It takes the closest candidate; once that one is
    /// farther from the query than the worst result, it stops. Else it sees
    /// each neighbour of the candidate that it has not seen before, and takes
    /// it for a candidate and a result if the results have room or the
    /// neighbour beats the worst of them, which then leaves.
    pub(crate) fn search_layer(&self, q: &Vec<i32>, entry: usize, ef: usize, l: usize) -> (res:
        Vec<Cand>)
        requires
            self.wf_but_caps(),
            self.on_layer(entry as int, l as int),
        ensures
            sorted(res@),
            distinct_ids(res@),
            self.cands_ok(q@, l as int, res@),
            res@.len() >= 1,
            res@.len() <= ef || res@.len() == 1,
            has_id(res@, entry) || self.beaten(q@, res@, ef as int, entry as int),
            self.closed_results(q@, l as int, ef as int, res@),
            res@ == layer_answer(
                self.mfunc_kind,
                self.nodes@,
                q@,
                entry as int,
                ef as int,
                l as int,
            ),
    {
        let n = self.nodes.len();
        let mut seen = no_marks(n);
        seen.set(entry, true);
        let e = self.measure(q, entry);
        let mut cands: Vec<Cand> = Vec::new();
        cands.push(e);
        let mut results: Vec<Cand> = Vec::new();
        results.push(e);
        let ghost kind = self.mfunc_kind;
        let ghost g = self.nodes@;
        let ghost answer = layer_answer(kind, g, q@, entry as int, ef as int, l as int);
        let ghost mut steps: nat = (2 * n + 1) as nat;
        proof {
            assert(seen@ =~= start_state(kind, g, q@, entry as int).seen);
            assert(cands@ =~= start_state(kind, g, q@, entry as int).cands);
            assert(results@ =~= start_state(kind, g, q@, entry as int).results);
            assert(state_of(seen@, cands@, results@) == start_state(kind, g, q@, entry as int));
            lemma_unseen_bound(seen@, n as nat);
            assert(cands@[0] == e);
            assert(results@[0] == e);
            assert(self.cand_ok(q@, l as int, e));
            assert forall|v: int| 0 <= v < seen@.len() && #[trigger] seen@[v] implies has_id(
                results@,
                v as usize,
            ) || self.beaten(q@, results@, ef as int, v) by {
                assert(v == entry);
                assert(results@[0].id == entry);
            }
            assert(has_id(cands@, results@[0].id)) by {
                assert(cands@[0].id == e.id);
            }
        }
        while cands.len() > 0
            invariant_except_break
                self.pending_ok(seen@, cands@, results@, l as int, -1),
            invariant
                self.wf_but_caps(),
                n == self.nodes@.len(),
                entry < n,
                seen@[entry as int],
                self.search_state_ok(q@, l as int, ef as int, seen@, cands@, results@),
                kind == self.mfunc_kind,
                g == self.nodes@,
                steps >= 2 * unseen_upto(seen@, n as nat) + cands@.len(),
                answer == run(
                    kind,
                    g,
                    q@,
                    ef as int,
                    l as int,
                    state_of(seen@, cands@, results@),
                    steps,
                ),
            ensures
                self.all_expanded(seen@, results@, l as int),
                answer == results@,
            decreases 2 * unseen_upto(seen@, n as nat) + cands@.len(),
        {
            let ghost cands0 = cands@;
            let ghost seen0 = seen@;
            let ghost results0 = results@;
            proof {
                self.lemma_cands_distinct(q@, l as int, cands@);
                self.lemma_cands_distinct(q@, l as int, results@);
                lemma_remove_first(cands@);
            }
            let c = cands.remove(0);
            let worst = results[results.len() - 1];
            proof {
                assert(c == cands0[0]);
                assert(self.cand_ok(q@, l as int, cands0[0]));
                assert forall|t: int| 0 <= t < cands@.len() implies #[trigger] self.cand_ok(
                    q@,
                    l as int,
                    cands@[t],
                ) && cands@[t].id < seen@.len() && seen@[cands@[t].id as int] by {
                    assert(cands@[t] == cands0[t + 1]);
                    assert(self.cand_ok(q@, l as int, cands0[t + 1]));
                }
                assert(self.pending_ok(seen@, cands@, results@, l as int, c.id as int)) by {
                    assert forall|t: int| 0 <= t < results@.len() implies has_id(
                        cands@,
                        (#[trigger] results@[t]).id,
                    ) || self.expanded(seen@, results@[t].id as int, l as int) || results@[t].id
                        == c.id by {
                        if has_id(cands0, results@[t].id) && results@[t].id != c.id {
                            assert(has_id(cands0.remove(0), results@[t].id));
                        }
                    }
                }
            }
            let ghost popped = state_of(seen@, cands@, results@);
            if c.sim < worst.sim {
                proof {
                    assert(answer == results@);
                    assert forall|t: int| 0 <= t < results@.len() implies self.expanded(
                        seen@,
                        (#[trigger] results@[t]).id as int,
                        l as int,
                    ) by {
                        let r = results@[t];
                        assert(self.cand_ok(q@, l as int, r));
                        if t < results@.len() - 1 {
                            assert(closer(results@[t], results@[results@.len() - 1]));
                        }
                        assert(r.sim >= worst.sim);
                        if has_id(cands@, r.id) {
                            let u = choose|u: int|
                                0 <= u < cands@.len() && (#[trigger] cands@[u]).id == r.id;
                            assert(self.cand_ok(q@, l as int, cands@[u]));
                            assert(closer(c, cands@[u]));
                        }
                    }
                }
                break ;
            }
            proof {
                assert(self.node_ok(c.id as int));
                assert(self.list_ok(c.id as int, l as int));
            }
            let deg = self.nodes[c.id].neighbors[l].len();
            let mut k: usize = 0;
            while k < deg
                invariant
                    self.wf_but_caps(),
                    n == self.nodes@.len(),
                    entry < n,
                    seen@[entry as int],
                    self.on_layer(c.id as int, l as int),
                    self.list_ok(c.id as int, l as int),
                    deg == self.adj(c.id as int, l as int).len(),
                    k <= deg,
                    self.search_state_ok(q@, l as int, ef as int, seen@, cands@, results@),
                    self.pending_ok(seen@, cands@, results@, l as int, c.id as int),
                    forall|t: int|
                        0 <= t < k ==> (#[trigger] self.adj(c.id as int, l as int)[t]) < n && seen@[self.adj(
                            c.id as int,
                            l as int,
                        )[t] as int],
                    2 * unseen_upto(seen@, n as nat) + cands@.len() < 2 * unseen_upto(
                        seen0,
                        n as nat,
                    ) + cands0.len(),
                    kind == self.mfunc_kind,
                    g == self.nodes@,
                    expand(
                        kind,
                        g,
                        q@,
                        ef as int,
                        popped,
                        list_at(g, c.id as int, l as int),
                        0,
                    ) == expand(
                        kind,
                        g,
                        q@,
                        ef as int,
                        state_of(seen@, cands@, results@),
                        list_at(g, c.id as int, l as int),
                        k as int,
                    ),
                decreases deg - k,
            {
                let ghost before_visit = state_of(seen@, cands@, results@);
                let x = self.nodes[c.id].neighbors[l][k];
                proof {
                    assert(self.edge_ok(
                        c.id as int,
                        l as int,
                        self.adj(c.id as int, l as int)[k as int] as int,
                    ));
                }
                if !seen[x] {
                    let ghost seen1 = seen@;
                    let ghost cands1 = cands@;
                    let ghost results1 = results@;
                    seen.set(x, true);
                    let cn = self.measure(q, x);
                    let last = results[results.len() - 1];
                    proof {
                        lemma_unseen_mark(seen1, n as nat, x as int);
                        self.lemma_pending_mark(
                            seen1,
                            x as int,
                            cands1,
                            results1,
                            l as int,
                            c.id as int,
                        );
                        self.lemma_cands_distinct(q@, l as int, results1);
                        assert(!has_id(cands1, x)) by {
                            if has_id(cands1, x) {
                                let u = choose|u: int|
                                    0 <= u < cands1.len() && (#[trigger] cands1[u]).id == x;
                                assert(seen1[cands1[u].id as int]);
                            }
                        }
                        assert(!has_id(results1, x)) by {
                            if has_id(results1, x) {
                                let u = choose|u: int|
                                    0 <= u < results1.len() && (#[trigger] results1[u]).id == x;
                                assert(seen1[results1[u].id as int]);
                            }
                        }
                        assert forall|t: int| 0 <= t < k + 1 implies (#[trigger] self.adj(
                            c.id as int,
                            l as int,
                        )[t]) < n && seen@[self.adj(c.id as int, l as int)[t] as int] by {
                            if t < k {
                                assert(seen1[self.adj(c.id as int, l as int)[t] as int]);
                            }
                        }
                    }
                    if results.len() < ef || is_closer(&cn, &last) {
                        let pc = insert_sorted(&mut cands, cn);
                        let pr = insert_sorted(&mut results, cn);
                        proof {
                            self.lemma_cands_insert(q@, l as int, cands1, pc as int, cn);
                            self.lemma_cands_insert(q@, l as int, results1, pr as int, cn);
                            Self::lemma_all_seen_insert(seen1, seen@, cands1, pc as int, cn);
                            Self::lemma_all_seen_insert(seen1, seen@, results1, pr as int, cn);
                            self.lemma_settled_insert(
                                q@,
                                seen1,
                                seen@,
                                results1,
                                ef as int,
                                cn,
                                pr as int,
                            );
                            self.lemma_pending_insert(
                                seen@,
                                cands1,
                                results1,
                                l as int,
                                c.id as int,
                                cn,
                                pc as int,
                                pr as int,
                            );
                        }
                        if results.len() > ef {
                            let ghost results2 = results@;
                            proof {
                                self.lemma_cands_distinct(q@, l as int, results2);
                                self.lemma_settled_pop(q@, seen@, results2, ef as int);
                                self.lemma_pending_pop(
                                    seen@,
                                    cands@,
                                    results2,
                                    l as int,
                                    c.id as int,
                                );
                                lemma_drop_last_ids(results2);
                            }
                            results.pop();
                            proof {
                                assert(results@ == results2.drop_last());
                                assert forall|t: int|
                                    0 <= t < results@.len() implies #[trigger] self.cand_ok(
                                    q@,
                                    l as int,
                                    results@[t],
                                ) && results@[t].id < seen@.len() && seen@[results@[t].id as int] by {
                                    assert(results@[t] == results2[t]);
                                    assert(self.cand_ok(q@, l as int, results2[t]));
                                }
                            }
                        }
                    } else {
                        proof {
                            Self::lemma_all_seen_insert(seen1, seen@, cands1, 0, cn);
                            Self::lemma_all_seen_insert(seen1, seen@, results1, 0, cn);
                            self.lemma_settled_reject(q@, seen1, seen@, results1, ef as int, cn);
                        }
                    }
                }
                proof {
                    assert(state_of(seen@, cands@, results@) == visit(
                        kind,
                        g,
                        q@,
                        ef as int,
                        before_visit,
                        x,
                    ));
                }
                k = k + 1;
            }
            proof {
                assert(self.expanded(seen@, c.id as int, l as int));
                assert(steps >= 1);
                assert(run(kind, g, q@, ef as int, l as int, state_of(seen0, cands0, results0), steps)
                    == run(
                    kind,
                    g,
                    q@,
                    ef as int,
                    l as int,
                    state_of(seen@, cands@, results@),
                    (steps - 1) as nat,
                ));
                steps = (steps - 1) as nat;
            }
        }
        proof {
            self.lemma_cands_distinct(q@, l as int, results@);
            assert forall|t: int, k: int|
                0 <= t < results@.len() && 0 <= k < self.adj(
                    results@[t].id as int,
                    l as int,
                ).len() implies has_id(
                results@,
                #[trigger] self.adj(results@[t].id as int, l as int)[k],
            ) || self.beaten(
                q@,
                results@,
                ef as int,
                self.adj(results@[t].id as int, l as int)[k] as int,
            ) by {
                assert(self.expanded(seen@, results@[t].id as int, l as int));
                let x = self.adj(results@[t].id as int, l as int)[k];
                assert(seen@[x as int]);
            }
        }
        results
    }
}

} // verus!
