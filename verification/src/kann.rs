use crate::answer::descend_from;
use crate::cand::distinct_ids;
use crate::cand::has_id;
use crate::cand::sorted;
use crate::cand::Cand;
use crate::error::Error;
use crate::index::lemma_live_upto_bounds;
use crate::index::Index;
use vstd::prelude::*;

verus! {

/// One hit of a search: the name of a node and its similarity to the query.
/// The larger the similarity, the better the hit.
#[derive(Debug, PartialEq, Clone)]
pub struct SearchResult {
    pub sim: i128,
    pub name: String,
}

impl Index {
    /// Whether `w` can be the result of a search for `q` on layer `l` with
    /// width `ef` from the node in slot `entry`.
    ///
    /// The list holds nodes of the layer, each once, with their similarity
    /// to the query, the closest first. It is never empty, and holds more
    /// than `ef` nodes only where `ef` is 0 and it holds one. The entry is in
    /// it, unless the list is full of closer nodes. And it is closed: a
    /// neighbour of a node of the list is in the list too, unless the list is
    /// full of nodes closer than that neighbour.
    pub open(crate) spec fn layer_result(
        &self,
        q: Seq<i32>,
        entry: int,
        ef: int,
        l: int,
        w: Seq<Cand>,
    ) -> bool {
        &&& sorted(w)
        &&& distinct_ids(w)
        &&& self.cands_ok(q, l, w)
        &&& w.len() >= 1
        &&& (w.len() <= ef || w.len() == 1)
        &&& (has_id(w, entry as usize) || self.beaten(q, w, ef, entry))
        &&& self.closed_results(q, l, ef, w)
    }

    /// Whether the hits name the nodes of `w`, in its order, with their
    /// similarities.
    pub open(crate) spec fn hits_match(&self, hits: Seq<SearchResult>, w: Seq<Cand>) -> bool {
        &&& hits.len() == w.len()
        &&& forall|t: int|
            0 <= t < hits.len() ==> (#[trigger] hits[t]).sim == w[t].sim && hits[t].name@
                == self.name_of(w[t].id as int)
    }

    /// The width of the search on layer 0 for `k` hits.
    pub open(crate) spec fn search_width(&self, k: int) -> int {
        if self.ef_construction as int >= k {
            self.ef_construction as int
        } else {
            k
        }
    }

    /// Whether `hits` can be the answer to a search for the `k` nodes
    /// nearest to `q`: the first `k` nodes, or all if there are fewer, of a
    /// result of the search on layer 0 from some live node.
    pub open(crate) spec fn kann_hits(&self, q: Seq<i32>, k: int, hits: Seq<SearchResult>) -> bool {
        exists|entry: int, w: Seq<Cand>|
            self.is_live(entry) && #[trigger] self.layer_result(
                q,
                entry,
                self.search_width(k),
                0,
                w,
            ) && self.hits_match(
                hits,
                w.take(
                    if k <= w.len() {
                        k
                    } else {
                        w.len() as int
                    },
                ),
            )
    }

    /// An index has an entry point as soon as it holds a node, and only then.
    pub proof fn lemma_entry_iff_nonempty(&self)
        requires
            self.wf(),
        ensures
            self.spec_enterpoint() is Some <==> self.spec_node_count() > 0,
    {
        lemma_live_upto_bounds(self.nodes@, self.nodes@.len());
        match self.enterpoint {
            Some(e) => {
                assert(self.is_live(e as int));
                assert(self.nodes@[e as int].live);
            },
            None => {
                assert forall|i: int| 0 <= i < self.nodes@.len() implies !(
                #[trigger] self.nodes@[i]).live by {
                    assert(!self.is_live(i));
                }
            },
        }
    }

    /// The greedy walk from the entry point down through the layers above
    /// layer 0.
    fn descend(&self, q: &Vec<i32>) -> (e: usize)
        requires
            self.wf(),
            self.enterpoint is Some,
        ensures
            self.on_layer(e as int, 0),
            e == descend_from(
                self.mfunc_kind,
                self.nodes@,
                q@,
                self.enterpoint->Some_0 as int,
                self.max_layer as nat,
            ),
    {
        let mut cur = self.enterpoint.unwrap();
        let mut l = self.max_layer;
        while l > 0
            invariant
                self.wf(),
                self.on_layer(cur as int, l as int),
                descend_from(
                    self.mfunc_kind,
                    self.nodes@,
                    q@,
                    self.enterpoint->Some_0 as int,
                    self.max_layer as nat,
                ) == descend_from(self.mfunc_kind, self.nodes@, q@, cur as int, l as nat),
            decreases l,
        {
            cur = self.walk(q, cur, l);
            l = l - 1;
        }
        cur
    }

    /// Searches the `k` nodes nearest to `q`, the best first.
    ///
    /// A query of the wrong dimension is a bad argument. An empty index
    /// answers with no hit. Otherwise the greedy walk goes from the entry
    /// point down to layer 0, and layer 0 is searched with the width of
    /// construction, or with `k` if that is more.
    pub fn search_kann(&self, q: &Vec<i32>, k: usize) -> (r: Result<Vec<SearchResult>, Error>)
        requires
            self.wf(),
        ensures
            r is Err <==> q@.len() != self.spec_data_dim(),
            r is Err ==> r->Err_0 == Error::BadArgument,
            r is Ok ==> r->Ok_0@.len() <= k && r->Ok_0@.len() <= self.spec_node_count(),
            r is Ok && self.spec_node_count() == 0 ==> r->Ok_0@.len() == 0,
            r is Ok && self.spec_node_count() > 0 ==> self.kann_hits(q@, k as int, r->Ok_0@),
            r is Ok ==> self.hits_match(r->Ok_0@, self.kann_answer(q@, k as int)),
    {
        if q.len() != self.data_dim {
            return Err(Error::BadArgument);
        }
        proof {
            self.lemma_entry_iff_nonempty();
        }
        let mut hits: Vec<SearchResult> = Vec::new();
        if self.enterpoint.is_none() {
            proof {
                assert(self.kann_answer(q@, k as int) =~= Seq::<Cand>::empty());
            }
            return Ok(hits);
        }
        let entry = self.descend(q);
        let ef = if self.ef_construction >= k {
            self.ef_construction
        } else {
            k
        };
        let found = self.search_layer(q, entry, ef, 0);
        let count = if k <= found.len() {
            k
        } else {
            found.len()
        };
        let mut t: usize = 0;
        while t < count
            invariant
                self.wf(),
                count <= found@.len(),
                self.cands_ok(q@, 0, found@),
                t <= count,
                hits@.len() == t,
                forall|u: int|
                    0 <= u < t ==> (#[trigger] hits@[u]).sim == found@[u].sim && hits@[u].name@
                        == self.name_of(found@[u].id as int),
            decreases count - t,
        {
            let c = found[t];
            proof {
                assert(self.cand_ok(q@, 0, found@[t as int]));
            }
            hits.push(SearchResult { sim: c.sim, name: self.nodes[c.id].name.clone() });
            t = t + 1;
        }
        proof {
            let w = found@;
            assert(self.layer_result(q@, entry as int, self.search_width(k as int), 0, w));
            assert(self.hits_match(hits@, w.take(count as int)));
            assert(w.take(count as int) == self.kann_answer(q@, k as int));
            self.lemma_distinct_live_bound(w, q@, 0);
        }
        Ok(hits)
    }

    /// A list of candidates that names no slot twice holds no more nodes
    /// than the index has.
    pub(crate) proof fn lemma_distinct_live_bound(&self, w: Seq<Cand>, q: Seq<i32>, l: int)
        requires
            self.wf(),
            distinct_ids(w),
            self.cands_ok(q, l, w),
        ensures
            w.len() <= self.spec_node_count(),
    {
        let ids = Seq::new(w.len(), |t: int| w[t].id as int);
        assert forall|t: int| 0 <= t < ids.len() implies self.is_live(#[trigger] ids[t]) by {
            assert(self.cand_ok(q, l, w[t]));
        }
        assert forall|a: int, b: int| 0 <= a < b < ids.len() implies #[trigger] ids[a]
            != #[trigger] ids[b] by {
            assert(w[a].id != w[b].id);
        }
        self.lemma_live_ids_bound(ids, self.nodes@.len());
    }

    /// Distinct live slots below `n` are no more than the live nodes below
    /// `n`; and if every live slot below `n` is among them, they are as many.
    pub(crate) proof fn lemma_live_ids_bound(&self, ids: Seq<int>, n: nat)
        requires
            n <= self.nodes@.len(),
            forall|t: int| 0 <= t < ids.len() ==> self.is_live(#[trigger] ids[t]) && ids[t] < n,
            forall|a: int, b: int| 0 <= a < b < ids.len() ==> #[trigger] ids[a] != #[trigger] ids[b],
        ensures
            ids.len() <= crate::index::live_upto(self.nodes@, n),
            (forall|i: int| 0 <= i < n && #[trigger] self.is_live(i) ==> ids.contains(i))
                ==> ids.len() == crate::index::live_upto(self.nodes@, n),
        decreases n,
    {
        if n == 0 {
            if ids.len() > 0 {
                assert(self.is_live(ids[0]) && ids[0] < n);
            }
        } else {
            let last = n - 1;
            if ids.contains(last) {
                let p = choose|p: int| 0 <= p < ids.len() && ids[p] == last;
                let rest = ids.remove(p);
                assert forall|t: int| 0 <= t < rest.len() implies self.is_live(#[trigger] rest[t])
                    && rest[t] < n - 1 by {
                    let u = if t < p { t } else { t + 1 };
                    assert(self.is_live(ids[u]) && ids[u] < n);
                    assert(ids[u] != ids[p]);
                }
                assert forall|a: int, b: int| 0 <= a < b < rest.len() implies #[trigger] rest[a]
                    != #[trigger] rest[b] by {
                    let ua = if a < p { a } else { a + 1 };
                    let ub = if b < p { b } else { b + 1 };
                    assert(ids[ua] != ids[ub]);
                }
                self.lemma_live_ids_bound(rest, (n - 1) as nat);
                assert(self.is_live(ids[p]));
                if forall|i: int| 0 <= i < n && #[trigger] self.is_live(i) ==> ids.contains(i) {
                    assert forall|i: int| 0 <= i < n - 1 && #[trigger] self.is_live(
                        i,
                    ) implies rest.contains(i) by {
                        assert(ids.contains(i));
                        let u = choose|u: int| 0 <= u < ids.len() && ids[u] == i;
                        if u < p {
                            assert(rest[u] == i);
                        } else {
                            assert(rest[u - 1] == i);
                        }
                    }
                }
            } else {
                assert forall|t: int| 0 <= t < ids.len() implies self.is_live(#[trigger] ids[t])
                    && ids[t] < n - 1 by {
                    assert(self.is_live(ids[t]) && ids[t] < n);
                    assert(ids.contains(ids[t]));
                }
                self.lemma_live_ids_bound(ids, (n - 1) as nat);
                if forall|i: int| 0 <= i < n && #[trigger] self.is_live(i) ==> ids.contains(i) {
                    assert(!self.is_live(last));
                    assert forall|i: int| 0 <= i < n - 1 && #[trigger] self.is_live(
                        i,
                    ) implies ids.contains(i) by {}
                }
            }
        }
    }
}

} // verus!
