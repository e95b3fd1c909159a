use crate::cand::distinct_ids;
use crate::cand::has_id;
use crate::cand::Cand;
use crate::index::Index;
use crate::metrics::similarity;
use crate::metrics::similarity_of;
use vstd::prelude::*;

verus! {

impl Index {
    /// How close the nodes in two slots are to each other.
    pub open(crate) spec fn pair_sim(&self, a: int, b: int) -> int {
        similarity_of(self.mfunc_kind, self.vector_of(a), self.vector_of(b))
    }

    /// The diversity rule: a candidate is taken if it is closer to the query
    /// than to every neighbour taken before it.
    pub open(crate) spec fn diverse(&self, e: Cand, taken: Seq<usize>) -> bool {
        forall|t: int|
            0 <= t < taken.len() ==> e.sim > self.pair_sim(e.id as int, #[trigger] taken[t] as int)
    }

    /// The selection that goes on from candidate `k` with `taken` in hand:
    /// candidates are tried in their order, until `m` are taken or none is
    /// left.
    pub open(crate) spec fn select_from(
        &self,
        cands: Seq<Cand>,
        m: int,
        k: int,
        taken: Seq<usize>,
    ) -> Seq<usize>
        decreases cands.len() - k,
    {
        if k < 0 || k >= cands.len() || taken.len() >= m {
            taken
        } else if self.diverse(cands[k], taken) {
            self.select_from(cands, m, k + 1, taken.push(cands[k].id))
        } else {
            self.select_from(cands, m, k + 1, taken)
        }
    }

    /// The neighbours that the heuristic selects from a list of candidates,
    /// the closest first: at most `m` of them.
    pub open(crate) spec fn selection(&self, cands: Seq<Cand>, m: int) -> Seq<usize> {
        self.select_from(cands, m, 0, Seq::<usize>::empty())
    }

    /// Every candidate stands for a live node.
    pub open(crate) spec fn cands_live(&self, cands: Seq<Cand>) -> bool {
        forall|t: int| 0 <= t < cands.len() ==> self.is_live((#[trigger] cands[t]).id as int)
    }

    /// Whether a candidate passes the diversity rule against those taken.
    fn is_diverse(&self, e: &Cand, taken: &Vec<usize>) -> (r: bool)
        requires
            self.wf_but_caps(),
            self.is_live(e.id as int),
            forall|t: int| 0 <= t < taken@.len() ==> self.is_live(#[trigger] taken@[t] as int),
        ensures
            r == self.diverse(*e, taken@),
    {
        let mut t: usize = 0;
        while t < taken.len()
            invariant
                self.wf_but_caps(),
                self.is_live(e.id as int),
                forall|u: int| 0 <= u < taken@.len() ==> self.is_live(#[trigger] taken@[u] as int),
                t <= taken@.len(),
                forall|u: int|
                    0 <= u < t ==> e.sim > self.pair_sim(e.id as int, #[trigger] taken@[u] as int),
            decreases taken@.len() - t,
        {
            let other = taken[t];
            proof {
                assert(self.is_live(taken@[t as int] as int));
                assert(self.node_ok(e.id as int));
                assert(self.node_ok(other as int));
            }
            let s = similarity(
                self.mfunc_kind,
                self.nodes[e.id].data.as_slice(),
                self.nodes[other].data.as_slice(),
            );
            if !(e.sim > s) {
                return false;
            }
            t = t + 1;
        }
        true
    }

    /// Selects up to `m` neighbours from a list of candidates that holds the
    /// closest first. A candidate is taken if it is closer to the query than
    /// to every neighbour taken before it.
    pub(crate) fn select_neighbors(&self, cands: &Vec<Cand>, m: usize) -> (r: Vec<usize>)
        requires
            self.wf_but_caps(),
            self.cands_live(cands@),
        ensures
            r@ == self.selection(cands@, m as int),
            r@.len() <= m,
            r@.len() <= cands@.len(),
            forall|t: int| 0 <= t < r@.len() ==> has_id(cands@, #[trigger] r@[t]),
            distinct_ids(cands@) ==> r@.no_duplicates(),
            cands@.len() > 0 && m > 0 ==> r@.len() >= 1 && r@[0] == cands@[0].id,
    {
        let mut taken: Vec<usize> = Vec::new();
        let mut k: usize = 0;
        while k < cands.len() && taken.len() < m
            invariant
                self.wf_but_caps(),
                self.cands_live(cands@),
                k <= cands@.len(),
                taken@.len() <= k,
                taken@.len() <= m,
                self.select_from(cands@, m as int, k as int, taken@) == self.selection(
                    cands@,
                    m as int,
                ),
                forall|t: int|
                    0 <= t < taken@.len() ==> exists|u: int|
                        0 <= u < k && (#[trigger] cands@[u]).id == #[trigger] taken@[t],
                distinct_ids(cands@) ==> taken@.no_duplicates(),
                k > 0 && m > 0 ==> taken@.len() >= 1 && taken@[0] == cands@[0].id,
            decreases cands@.len() - k,
        {
            let e = cands[k];
            proof {
                assert(self.is_live(cands@[k as int].id as int));
                assert forall|t: int| 0 <= t < taken@.len() implies self.is_live(
                    #[trigger] taken@[t] as int,
                ) by {
                    let u = choose|u: int| 0 <= u < k && (#[trigger] cands@[u]).id == taken@[t];
                    assert(self.is_live(cands@[u].id as int));
                }
            }
            let ghost before = taken@;
            if self.is_diverse(&e, &taken) {
                taken.push(e.id);
                proof {
                    assert forall|t: int| 0 <= t < taken@.len() implies exists|u: int|
                        0 <= u < k + 1 && (#[trigger] cands@[u]).id == #[trigger] taken@[t] by {
                        if t < before.len() {
                            let u = choose|u: int|
                                0 <= u < k && (#[trigger] cands@[u]).id == before[t];
                            assert(cands@[u].id == taken@[t]);
                        } else {
                            assert(cands@[k as int].id == taken@[t]);
                        }
                    }
                    if distinct_ids(cands@) {
                        assert forall|i: int, j: int|
                            0 <= i < taken@.len() && 0 <= j < taken@.len() && i != j implies taken@[i]
                            != taken@[j] by {
                            if i < before.len() && j < before.len() {
                                assert(before[i] != before[j]);
                            } else {
                                let old_one = if i < before.len() { i } else { j };
                                let u = choose|u: int|
                                    0 <= u < k && (#[trigger] cands@[u]).id == before[old_one];
                                assert(cands@[u].id != cands@[k as int].id);
                            }
                        }
                    }
                }
            } else {
                proof {
                    assert forall|t: int| 0 <= t < taken@.len() implies exists|u: int|
                        0 <= u < k + 1 && (#[trigger] cands@[u]).id == #[trigger] taken@[t] by {
                        let u = choose|u: int|
                            0 <= u < k && (#[trigger] cands@[u]).id == before[t];
                        assert(cands@[u].id == taken@[t]);
                    }
                }
            }
            k = k + 1;
        }
        proof {
            assert forall|t: int| 0 <= t < taken@.len() implies has_id(
                cands@,
                #[trigger] taken@[t],
            ) by {
                let u = choose|u: int| 0 <= u < k && (#[trigger] cands@[u]).id == taken@[t];
                assert(cands@[u].id == taken@[t]);
            }
        }
        taken
    }
}

} // verus!
