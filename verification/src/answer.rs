use crate::cand::closer;
use crate::cand::with_cand;
use crate::cand::Cand;
use crate::index::Index;
use crate::index::Node;
use crate::metrics::similarity_of;
use crate::metrics::MetricFuncs;
use vstd::prelude::*;

verus! {

/// What a search on one layer has in hand at one moment: the marks of the
/// slots that it has seen, the frontier of candidates and the best results
/// so far, both with the closest first.
pub struct SearchState {
    pub seen: Seq<bool>,
    pub cands: Seq<Cand>,
    pub results: Seq<Cand>,
}

/// The state with these three parts.
pub open spec fn state_of(seen: Seq<bool>, cands: Seq<Cand>, results: Seq<Cand>) -> SearchState {
    SearchState { seen, cands, results }
}

/// The candidate that stands for the node in slot `i` of a store under a
/// query.
pub open(crate) spec fn cand_at(kind: MetricFuncs, g: Seq<Node>, q: Seq<i32>, i: int) -> Cand {
    Cand { sim: similarity_of(kind, q, g[i].data@) as i128, id: i as usize }
}

/// The neighbours of the node in slot `i` of a store on layer `l`.
pub open(crate) spec fn list_at(g: Seq<Node>, i: int, l: int) -> Seq<usize> {
    g[i].neighbors@[l]@
}

/// One neighbour comes by. A neighbour that was seen before changes
/// nothing. Else it is marked, and it becomes a candidate and a result if
/// the results have room for it or it is closer than the worst of them; a
/// result too many then leaves at the far end.
pub open(crate) spec fn visit(
    kind: MetricFuncs,
    g: Seq<Node>,
    q: Seq<i32>,
    ef: int,
    st: SearchState,
    x: usize,
) -> SearchState {
    if st.seen[x as int] {
        st
    } else {
        let seen = st.seen.update(x as int, true);
        let cn = cand_at(kind, g, q, x as int);
        if st.results.len() < ef || closer(cn, st.results[st.results.len() - 1]) {
            let results = with_cand(st.results, cn);
            SearchState {
                seen,
                cands: with_cand(st.cands, cn),
                results: if results.len() > ef {
                    results.drop_last()
                } else {
                    results
                },
            }
        } else {
            SearchState { seen, cands: st.cands, results: st.results }
        }
    }
}

/// The neighbours of a list come by, one after the other, from place `k`
/// on.
pub open(crate) spec fn expand(
    kind: MetricFuncs,
    g: Seq<Node>,
    q: Seq<i32>,
    ef: int,
    st: SearchState,
    list: Seq<usize>,
    k: int,
) -> SearchState
    decreases list.len() - k,
{
    if k < 0 || k >= list.len() {
        st
    } else {
        expand(kind, g, q, ef, visit(kind, g, q, ef, st, list[k]), list, k + 1)
    }
}

/// The search goes on from a state for at most `steps` candidates: it takes
/// the closest candidate off the frontier, stops if that one is farther
/// than the worst result, and else lets its neighbours come by.
pub open(crate) spec fn run(
    kind: MetricFuncs,
    g: Seq<Node>,
    q: Seq<i32>,
    ef: int,
    l: int,
    st: SearchState,
    steps: nat,
) -> Seq<Cand>
    decreases steps,
{
    if steps == 0 || st.cands.len() == 0 {
        st.results
    } else {
        let c = st.cands[0];
        if c.sim < st.results[st.results.len() - 1].sim {
            st.results
        } else {
            run(
                kind,
                g,
                q,
                ef,
                l,
                expand(
                    kind,
                    g,
                    q,
                    ef,
                    state_of(st.seen, st.cands.remove(0), st.results),
                    list_at(g, c.id as int, l),
                    0,
                ),
                (steps - 1) as nat,
            )
        }
    }
}

/// The state in which a search starts: the entry is seen, and it is the one
/// candidate and the one result.
pub open(crate) spec fn start_state(
    kind: MetricFuncs,
    g: Seq<Node>,
    q: Seq<i32>,
    entry: int,
) -> SearchState {
    SearchState {
        seen: Seq::new(g.len(), |i: int| i == entry),
        cands: seq![cand_at(kind, g, q, entry)],
        results: seq![cand_at(kind, g, q, entry)],
    }
}

/// The answer of the search on layer `l` with width `ef` from one entry.
pub open(crate) spec fn layer_answer(
    kind: MetricFuncs,
    g: Seq<Node>,
    q: Seq<i32>,
    entry: int,
    ef: int,
    l: int,
) -> Seq<Cand> {
    run(kind, g, q, ef, l, start_state(kind, g, q, entry), (2 * g.len() + 1) as nat)
}

/// The closest of a node and its neighbours from place `k` of a list on; of
/// several that are equally close, the first.
pub open(crate) spec fn best_of(
    kind: MetricFuncs,
    g: Seq<Node>,
    q: Seq<i32>,
    list: Seq<usize>,
    k: int,
    best: Cand,
) -> Cand
    decreases list.len() - k,
{
    if k < 0 || k >= list.len() {
        best
    } else {
        let c = cand_at(kind, g, q, list[k] as int);
        best_of(
            kind,
            g,
            q,
            list,
            k + 1,
            if c.sim > best.sim {
                c
            } else {
                best
            },
        )
    }
}

/// Where the greedy walk on layer `l` ends that starts at a node.
pub open(crate) spec fn walk_from(
    kind: MetricFuncs,
    g: Seq<Node>,
    q: Seq<i32>,
    cur: Cand,
    l: int,
) -> int
    decreases i128::MAX - cur.sim,
{
    let best = best_of(kind, g, q, list_at(g, cur.id as int, l), 0, cur);
    if best.sim > cur.sim {
        walk_from(kind, g, q, best, l)
    } else {
        cur.id as int
    }
}

/// Where the greedy walks end that lead from a node on layer `l` down to
/// layer 0, one walk on each layer above layer 0.
pub open(crate) spec fn descend_from(
    kind: MetricFuncs,
    g: Seq<Node>,
    q: Seq<i32>,
    cur: int,
    l: nat,
) -> int
    decreases l,
{
    if l == 0 {
        cur
    } else {
        descend_from(
            kind,
            g,
            q,
            walk_from(kind, g, q, cand_at(kind, g, q, cur), l as int),
            (l - 1) as nat,
        )
    }
}

impl Index {
    /// The answer to a search for the `k` nodes nearest to `q`: the first
    /// `k` results, or all if there are fewer, of the search on layer 0 from
    /// where the greedy walks from the entry point end. The answer is a
    /// function of the graph and of the query: the generator has no part in
    /// it.
    pub open(crate) spec fn kann_answer(&self, q: Seq<i32>, k: int) -> Seq<Cand> {
        match self.enterpoint {
            None => Seq::empty(),
            Some(e) => {
                let entry = descend_from(
                    self.mfunc_kind,
                    self.nodes@,
                    q,
                    e as int,
                    self.max_layer as nat,
                );
                let w = layer_answer(
                    self.mfunc_kind,
                    self.nodes@,
                    q,
                    entry,
                    self.search_width(k),
                    0,
                );
                w.take(
                    if k <= w.len() {
                        k
                    } else {
                        w.len() as int
                    },
                )
            },
        }
    }
}

} // verus!
