use crate::answer::cand_at;
use crate::answer::layer_answer;
use crate::answer::walk_from;
use crate::cand::with_cand;
use crate::cand::Cand;
use crate::index::Index;
use crate::index::Node;
use crate::metrics::similarity_of;
use crate::metrics::MetricFuncs;
use vstd::prelude::*;

verus! {

/// The adjacency lists of a graph: for each slot and each layer of its node,
/// the slots of the neighbours.
pub type Lists = Seq<Seq<Seq<usize>>>;

/// The lists with one more edge at the end of one list.
pub open spec fn add_edge(a: Lists, i: int, l: int, j: usize) -> Lists {
    a.update(i, a[i].update(l, a[i][l].push(j)))
}

/// The lists with the edge at place `k` of one list taken out.
pub open spec fn del_edge(a: Lists, i: int, l: int, k: int) -> Lists {
    a.update(i, a[i].update(l, a[i][l].remove(k)))
}

/// The first place from `from` on at which a slot stands in a list; the
/// length of the list where it stands nowhere.
pub open spec fn first_index(s: Seq<usize>, x: usize, from: int) -> int
    decreases s.len() - from,
{
    if from < 0 || from >= s.len() {
        s.len() as int
    } else if s[from] == x {
        from
    } else {
        first_index(s, x, from + 1)
    }
}

/// The lists after two nodes have been joined on a layer: each stands at the
/// end of the other's list.
pub open spec fn linked_lists(a: Lists, x: int, y: int, l: int) -> Lists {
    add_edge(add_edge(a, x, l, y as usize), y, l, x as usize)
}

/// The lists after two nodes have parted on a layer: each has left the
/// other's list.
pub open spec fn unlinked_lists(a: Lists, x: int, y: int, l: int) -> Lists {
    let b = del_edge(a, x, l, first_index(a[x][l], y as usize, 0));
    del_edge(b, y, l, first_index(b[y][l], x as usize, 0))
}

/// The diversity rule over the vectors of a store: a candidate is taken if
/// it is closer to the query than to every neighbour taken before it.
pub open spec fn diverse_in(
    kind: MetricFuncs,
    vecs: Seq<Seq<i32>>,
    e: Cand,
    taken: Seq<usize>,
) -> bool {
    forall|t: int|
        0 <= t < taken.len() ==> e.sim > similarity_of(
            kind,
            vecs[e.id as int],
            vecs[#[trigger] taken[t] as int],
        )
}

/// The selection over the vectors of a store that goes on from candidate
/// `k` with `taken` in hand.
pub open spec fn select_in(
    kind: MetricFuncs,
    vecs: Seq<Seq<i32>>,
    cands: Seq<Cand>,
    m: int,
    k: int,
    taken: Seq<usize>,
) -> Seq<usize>
    decreases cands.len() - k,
{
    if k < 0 || k >= cands.len() || taken.len() >= m {
        taken
    } else if diverse_in(kind, vecs, cands[k], taken) {
        select_in(kind, vecs, cands, m, k + 1, taken.push(cands[k].id))
    } else {
        select_in(kind, vecs, cands, m, k + 1, taken)
    }
}

/// The neighbours from place `k` of a list on, each measured against the
/// node in slot `s` and put at its place among those in hand.
pub open spec fn sim_cands(
    kind: MetricFuncs,
    vecs: Seq<Seq<i32>>,
    s: int,
    list: Seq<usize>,
    k: int,
    acc: Seq<Cand>,
) -> Seq<Cand>
    decreases list.len() - k,
{
    if k < 0 || k >= list.len() {
        acc
    } else {
        sim_cands(
            kind,
            vecs,
            s,
            list,
            k + 1,
            with_cand(
                acc,
                Cand {
                    sim: similarity_of(kind, vecs[s], vecs[list[k] as int]) as i128,
                    id: list[k],
                },
            ),
        )
    }
}

/// The lists after the node in slot `s` has parted, on layer `l`, with each
/// neighbour from place `t` of `list` on that is not to be kept.
pub open spec fn pruned_lists(
    a: Lists,
    s: int,
    l: int,
    list: Seq<usize>,
    keep: Seq<usize>,
    t: int,
) -> Lists
    decreases list.len() - t,
{
    if t < 0 || t >= list.len() {
        a
    } else {
        pruned_lists(
            if keep.contains(list[t]) {
                a
            } else {
                unlinked_lists(a, s, list[t] as int, l)
            },
            s,
            l,
            list,
            keep,
            t + 1,
        )
    }
}

/// The lists after the list of the node in slot `s` on layer `l` has been
/// brought down to `cap` neighbours: from the neighbours of the node, the
/// closest first, the heuristic selects those that stay.
pub open spec fn shrunk_lists(
    kind: MetricFuncs,
    vecs: Seq<Seq<i32>>,
    a: Lists,
    s: int,
    l: int,
    cap: int,
) -> Lists {
    let list = a[s][l];
    let cands = sim_cands(kind, vecs, s, list, 0, Seq::empty());
    let keep = select_in(kind, vecs, cands, cap, 0, Seq::empty());
    pruned_lists(a, s, l, list, keep, 0)
}

/// The lists after the node in slot `q` has been joined, on layer `l`, to
/// the neighbours from place `t` of `list` on: each neighbour is joined to
/// the node, and a neighbour whose list is then longer than the layer
/// allows is brought down to what the layer allows at once.
pub open spec fn joined_lists(
    kind: MetricFuncs,
    vecs: Seq<Seq<i32>>,
    m_max: int,
    m_max_0: int,
    a: Lists,
    q: int,
    l: int,
    list: Seq<usize>,
    t: int,
) -> Lists
    decreases list.len() - t,
{
    if t < 0 || t >= list.len() {
        a
    } else {
        let s = list[t] as int;
        let cap = if l == 0 {
            m_max_0
        } else {
            m_max
        };
        let a1 = linked_lists(a, q, s, l);
        joined_lists(
            kind,
            vecs,
            m_max,
            m_max_0,
            if a1[s][l].len() > cap {
                shrunk_lists(kind, vecs, a1, s, l, cap)
            } else {
                a1
            },
            q,
            l,
            list,
            t + 1,
        )
    }
}

/// The lists after the node in slot `q` has been joined to the neighbours
/// that a plan names, on the layers from `l` up.
pub open spec fn connected_lists(
    kind: MetricFuncs,
    vecs: Seq<Seq<i32>>,
    m_max: int,
    m_max_0: int,
    a: Lists,
    q: int,
    plan: Seq<Seq<usize>>,
    l: int,
) -> Lists
    decreases plan.len() - l,
{
    if l < 0 || l >= plan.len() {
        a
    } else {
        connected_lists(
            kind,
            vecs,
            m_max,
            m_max_0,
            joined_lists(kind, vecs, m_max, m_max_0, a, q, l, plan[l], 0),
            q,
            plan,
            l + 1,
        )
    }
}

/// Where the greedy walks end that lead from a node on layer `l` down to the
/// layer above `stop`, one walk on each layer above `stop`.
pub open(crate) spec fn descend_to(
    kind: MetricFuncs,
    g: Seq<Node>,
    q: Seq<i32>,
    cur: int,
    l: nat,
    stop: nat,
) -> int
    decreases l,
{
    if l <= stop {
        cur
    } else {
        descend_to(
            kind,
            g,
            q,
            walk_from(kind, g, q, cand_at(kind, g, q, cur), l as int),
            (l - 1) as nat,
            stop,
        )
    }
}

/// The neighbours that are chosen for a new node on the layers from 0 up
/// to `l`. Each layer is searched from one node with the width `ef`, and the
/// heuristic selects up to `m` of what the search found; the closest node
/// found is where the search of the layer below starts.
pub open(crate) spec fn planned(
    kind: MetricFuncs,
    g: Seq<Node>,
    vecs: Seq<Seq<i32>>,
    q: Seq<i32>,
    cur: int,
    l: nat,
    m: int,
    ef: int,
) -> Seq<Seq<usize>>
    decreases l,
{
    let found = layer_answer(kind, g, q, cur, ef, l as int);
    let chosen = select_in(kind, vecs, found, m, 0, Seq::empty());
    if l == 0 {
        seq![chosen]
    } else {
        planned(kind, g, vecs, q, found[0].id as int, (l - 1) as nat, m, ef).push(chosen)
    }
}

/// The lists after the node in slot `x` has parted, on layer `l`, with the
/// last `n` neighbours of its list, the last first.
pub open spec fn emptied_list(a: Lists, x: int, l: int, n: nat) -> Lists
    decreases n,
{
    if n == 0 || a[x][l].len() == 0 {
        a
    } else {
        emptied_list(
            unlinked_lists(a, x, a[x][l][a[x][l].len() - 1] as int, l),
            x,
            l,
            (n - 1) as nat,
        )
    }
}

/// The lists after the node in slot `x` has parted with all its neighbours
/// on the layers from `l` up to the last of its `levels` layers.
pub open spec fn isolated_lists(a: Lists, x: int, l: int, levels: int) -> Lists
    decreases levels - l,
{
    if l < 0 || l >= levels {
        a
    } else {
        isolated_lists(emptied_list(a, x, l, a[x][l].len()), x, l + 1, levels)
    }
}

/// The lists after the node in slot `x` has left: it has parted with all its
/// neighbours, and its slot holds no list.
pub open spec fn lists_without(a: Lists, x: int) -> Lists {
    isolated_lists(a, x, 0, a[x].len() as int).update(x, Seq::empty())
}

/// What the lists of a list of lists hold.
pub open spec fn plan_view(plan: Seq<Vec<usize>>) -> Seq<Seq<usize>> {
    Seq::new(plan.len(), |i: int| plan[i]@)
}

impl Index {
    /// The neighbours that are chosen for a node that is about to come in
    /// with the vector `q` and the top layer `level`, for each layer from 0
    /// up to that layer or to the top layer of the index, whichever is
    /// lower.
    pub open(crate) spec fn plan_for(&self, q: Seq<i32>, level: int) -> Seq<Seq<usize>> {
        let top = if level < self.max_layer {
            level as nat
        } else {
            self.max_layer as nat
        };
        planned(
            self.mfunc_kind,
            self.nodes@,
            self.vectors(),
            q,
            descend_to(
                self.mfunc_kind,
                self.nodes@,
                q,
                self.enterpoint->Some_0 as int,
                self.max_layer as nat,
                level as nat,
            ),
            top,
            self.m as int,
            self.ef_construction as int,
        )
    }

    /// The adjacency lists of the index once a node has come in with the
    /// vector `q` on the layers up to `lvl`: the lists of the node start
    /// empty, and the node is joined to the neighbours chosen for it.
    pub open(crate) spec fn lists_with(&self, q: Seq<i32>, lvl: int) -> Lists {
        let fresh = self.lists().push(Seq::new((lvl + 1) as nat, |l: int| Seq::<usize>::empty()));
        if self.enterpoint is None {
            fresh
        } else {
            connected_lists(
                self.mfunc_kind,
                self.vectors().push(q),
                self.m_max as int,
                self.m_max_0 as int,
                fresh,
                self.nodes@.len() as int,
                self.plan_for(q, lvl),
                0,
            )
        }
    }

    /// The selection of the index is the selection over its vectors.
    pub(crate) proof fn lemma_select_in(&self, cands: Seq<Cand>, m: int, k: int, taken: Seq<usize>)
        requires
            forall|t: int|
                0 <= t < cands.len() ==> 0 <= (#[trigger] cands[t]).id < self.nodes@.len(),
            forall|t: int| 0 <= t < taken.len() ==> 0 <= #[trigger] taken[t] < self.nodes@.len(),
        ensures
            self.select_from(cands, m, k, taken) == select_in(
                self.mfunc_kind,
                self.vectors(),
                cands,
                m,
                k,
                taken,
            ),
        decreases cands.len() - k,
    {
        if k < 0 || k >= cands.len() || taken.len() >= m {
        } else {
            let e = cands[k];
            assert(self.diverse(e, taken) == diverse_in(
                self.mfunc_kind,
                self.vectors(),
                e,
                taken,
            )) by {
                assert forall|t: int| 0 <= t < taken.len() implies self.pair_sim(
                    e.id as int,
                    #[trigger] taken[t] as int,
                ) == similarity_of(
                    self.mfunc_kind,
                    self.vectors()[e.id as int],
                    self.vectors()[taken[t] as int],
                ) by {}
            }
            let next = taken.push(e.id);
            assert forall|t: int| 0 <= t < next.len() implies 0 <= #[trigger] next[t]
                < self.nodes@.len() by {
                if t < taken.len() {
                    assert(next[t] == taken[t]);
                }
            }
            self.lemma_select_in(cands, m, k + 1, next);
            self.lemma_select_in(cands, m, k + 1, taken);
        }
    }

    /// The adjacency lists of the index.
    pub open(crate) spec fn lists(&self) -> Lists {
        Seq::new(
            self.nodes@.len(),
            |i: int|
                Seq::new(self.nodes@[i].neighbors@.len(), |l: int| self.nodes@[i].neighbors@[l]@),
        )
    }

    /// The vectors of the index, slot by slot.
    pub open(crate) spec fn vectors(&self) -> Seq<Seq<i32>> {
        Seq::new(self.nodes@.len(), |i: int| self.nodes@[i].data@)
    }
}

} // verus!
