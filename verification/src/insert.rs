use crate::cand::has_id;
use crate::cand::insert_sorted;
use crate::cand::lemma_insert_ids;
use crate::cand::sorted;
use crate::cand::Cand;
use crate::graph::lemma_subset_len;
use crate::index::lemma_live_upto_bounds;
use crate::index::lemma_live_upto_same;
use crate::index::Index;
use crate::error::Error;
use crate::index::Node;
use crate::model::connected_lists;
use crate::model::descend_to;
use crate::model::joined_lists;
use crate::model::plan_view;
use crate::model::planned;
use crate::model::pruned_lists;
use crate::model::shrunk_lists;
use crate::model::sim_cands;
use crate::level::is_level;
use crate::level::MAX_LEVEL;
use crate::level::level_for;
use crate::level::next_sample;
use crate::search::no_marks;
use vstd::prelude::*;
use vstd::string::*;

verus! {

/// Whether a slot stands in a list.
pub(crate) fn list_has(v: &Vec<usize>, x: usize) -> (r: bool)
    ensures
        r == v@.contains(x),
{
    let mut i: usize = 0;
    while i < v.len()
        invariant
            i <= v@.len(),
            forall|j: int| 0 <= j < i ==> v@[j] != x,
        decreases v@.len() - i,
    {
        if v[i] == x {
            return true;
        }
        i = i + 1;
    }
    false
}

/// A copy of a vector.
pub(crate) fn copy_vector(v: &Vec<i32>) -> (r: Vec<i32>)
    ensures
        r@ == v@,
{
    let mut r: Vec<i32> = Vec::new();
    let mut i: usize = 0;
    while i < v.len()
        invariant
            i <= v@.len(),
            r@ == v@.take(i as int),
        decreases v@.len() - i,
    {
        r.push(v[i]);
        assert(v@.take(i + 1) == v@.take(i as int).push(v@[i as int]));
        i = i + 1;
    }
    assert(v@.take(i as int) == v@);
    r
}

/// As many empty adjacency lists as a node of the given top layer needs.
fn empty_lists(level: usize) -> (r: Vec<Vec<usize>>)
    requires
        level < usize::MAX,
    ensures
        r@.len() == level + 1,
        forall|l: int| 0 <= l <= level ==> (#[trigger] r@[l])@.len() == 0,
{
    let mut r: Vec<Vec<usize>> = Vec::new();
    let mut l: usize = 0;
    while l <= level
        invariant
            level < usize::MAX,
            l <= level + 1,
            r@.len() == l,
            forall|k: int| 0 <= k < l ==> (#[trigger] r@[k])@.len() == 0,
        decreases level + 1 - l,
    {
        r.push(Vec::new());
        l = l + 1;
    }
    r
}

impl Index {
    /// Whether the lists of the node in slot `i` are those that it had in
    /// `old`.
    pub open(crate) spec fn lists_same(&self, old: &Index, i: int) -> bool {
        forall|k: int| 0 <= k < self.levels(i) ==> #[trigger] self.adj(i, k) == old.adj(i, k)
    }

    /// Whether this index came from `old` by taking edges away and nothing
    /// else.
    pub open(crate) spec fn shrunk_from(&self, old: &Index) -> bool {
        &&& self.same_but_lists(old)
        &&& forall|i: int, k: int|
            0 <= i < self.nodes@.len() && 0 <= k < self.levels(i) ==> (#[trigger] self.adj(
                i,
                k,
            )).len() <= old.adj(i, k).len()
        &&& forall|i: int, k: int, y: usize|
            0 <= i < self.nodes@.len() && 0 <= k < self.levels(i) && #[trigger] self.adj(
                i,
                k,
            ).contains(y) ==> old.adj(i, k).contains(y)
    }

    /// Whether every node whose lists differ from those in `old` is marked.
    pub open(crate) spec fn marks_cover(&self, old: &Index, marks: Seq<bool>) -> bool {
        &&& marks.len() == self.nodes@.len()
        &&& forall|i: int| 0 <= i < marks.len() && !#[trigger] marks[i] ==> self.lists_same(old, i)
    }

    /// Brings the list of the node in slot `s` on layer `l` down to what the
    /// layer allows: the heuristic selects, from the neighbours of the node,
    /// those that stay, and the node parts with the others.
    pub(crate) fn shrink(&mut self, s: usize, l: usize, marks: &mut Vec<bool>)
        requires
            old(self).wf_but_caps(),
            old(self).on_layer(s as int, l as int),
            old(marks)@.len() == old(self).nodes@.len(),
        ensures
            final(self).wf_but_caps(),
            final(self).shrunk_from(old(self)),
            final(self).adj(s as int, l as int).len() <= final(self).cap(l as int),
            final(self).marks_cover(old(self), final(marks)@),
            forall|i: int| 0 <= i < old(marks)@.len() && old(marks)@[i] ==> final(marks)@[i],
            final(self).lists() == shrunk_lists(
                old(self).mfunc_kind,
                old(self).vectors(),
                old(self).lists(),
                s as int,
                l as int,
                old(self).cap(l as int),
            ),
    {
        let list = self.copy_list(s, l);
        let ghost kind = self.mfunc_kind;
        let ghost vecs = self.vectors();
        let limit = if l == 0 {
            self.m_max_0
        } else {
            self.m_max
        };
        let mut cands: Vec<Cand> = Vec::new();
        let mut t: usize = 0;
        proof {
            assert(self.node_ok(s as int));
            assert(self.list_ok(s as int, l as int));
        }
        while t < list.len()
            invariant
                self.wf_but_caps(),
                self.on_layer(s as int, l as int),
                self.list_ok(s as int, l as int),
                list@ == self.adj(s as int, l as int),
                t <= list@.len(),
                sorted(cands@),
                cands@.len() == t,
                self.cands_live(cands@),
                forall|id: usize|
                    has_id(cands@, id) <==> exists|u: int| 0 <= u < t && list@[u] == id,
                kind == self.mfunc_kind,
                vecs == self.vectors(),
                sim_cands(kind, vecs, s as int, list@, 0, Seq::empty()) == sim_cands(
                    kind,
                    vecs,
                    s as int,
                    list@,
                    t as int,
                    cands@,
                ),
            decreases list@.len() - t,
        {
            let x = list[t];
            proof {
                assert(self.edge_ok(
                    s as int,
                    l as int,
                    self.adj(s as int, l as int)[t as int] as int,
                ));
                if has_id(cands@, x) {
                    let u = choose|u: int| 0 <= u < t && list@[u] == x;
                    assert(list@[u] != list@[t as int]);
                }
            }
            let c = self.measure(&self.nodes[s].data, x);
            let ghost before = cands@;
            let pos = insert_sorted(&mut cands, c);
            proof {
                lemma_insert_ids(before, pos as int, c);
                assert forall|u: int| 0 <= u < cands@.len() implies self.is_live(
                    (#[trigger] cands@[u]).id as int,
                ) by {
                    if u < pos {
                        assert(self.is_live(before[u].id as int));
                    } else if u > pos {
                        assert(self.is_live(before[u - 1].id as int));
                    }
                }
                assert forall|id: usize| has_id(cands@, id) <==> exists|u: int|
                    0 <= u < t + 1 && list@[u] == id by {
                    if has_id(before, id) {
                        let u = choose|u: int| 0 <= u < t && list@[u] == id;
                        assert(0 <= u < t + 1 && list@[u] == id);
                    }
                    if exists|u: int| 0 <= u < t + 1 && list@[u] == id {
                        let u = choose|u: int| 0 <= u < t + 1 && list@[u] == id;
                        if u < t {
                            assert(has_id(before, id));
                        }
                    }
                }
            }
            t = t + 1;
        }
        let keep = self.select_neighbors(&cands, limit);
        proof {
            assert forall|u: int| 0 <= u < cands@.len() implies 0 <= (#[trigger] cands@[u]).id
                < self.nodes@.len() by {
                assert(self.is_live(cands@[u].id as int));
            }
            self.lemma_select_in(cands@, limit as int, 0, Seq::empty());
            assert(old(self).lists()[s as int][l as int] == list@);
        }
        let mut t: usize = 0;
        while t < list.len()
            invariant
                self.wf_but_caps(),
                self.on_layer(s as int, l as int),
                self.shrunk_from(old(self)),
                shrunk_lists(
                    kind,
                    vecs,
                    old(self).lists(),
                    s as int,
                    l as int,
                    limit as int,
                ) == pruned_lists(self.lists(), s as int, l as int, list@, keep@, t as int),
                list@ == old(self).adj(s as int, l as int),
                list@.no_duplicates(),
                t <= list@.len(),
                keep@.len() <= limit,
                limit == self.cap(l as int),
                forall|u: int|
                    t <= u < list@.len() ==> self.adj(s as int, l as int).contains(
                        #[trigger] list@[u],
                    ),
                forall|y: usize|
                    #[trigger] self.adj(s as int, l as int).contains(y) ==> keep@.contains(y) || exists|
                        u: int,
                    | t <= u < list@.len() && list@[u] == y,
                marks@.len() == self.nodes@.len(),
                marks@.len() == old(marks)@.len(),
                self.marks_cover(old(self), marks@),
                forall|i: int| 0 <= i < old(marks)@.len() && old(marks)@[i] ==> marks@[i],
            decreases list@.len() - t,
        {
            let x = list[t];
            if !list_has(&keep, x) {
                let ghost before = *self;
                let ghost marks0 = marks@;
                proof {
                    assert(self.adj(s as int, l as int).contains(list@[t as int]));
                    assert(self.node_ok(s as int));
                    assert(self.list_ok(s as int, l as int));
                    let k = choose|k: int|
                        0 <= k < self.adj(s as int, l as int).len() && self.adj(
                            s as int,
                            l as int,
                        )[k] == x;
                    assert(self.edge_ok(
                        s as int,
                        l as int,
                        self.adj(s as int, l as int)[k] as int,
                    ));
                }
                self.unlink(s, x, l);
                marks.set(s, true);
                marks.set(x, true);
                proof {
                    assert forall|i: int, k: int|
                        0 <= i < self.nodes@.len() && 0 <= k < self.levels(i) implies (
                    #[trigger] self.adj(i, k)).len() <= old(self).adj(i, k).len() by {
                        assert(before.adj(i, k).len() <= old(self).adj(i, k).len());
                    }
                    assert forall|i: int, k: int, y: usize|
                        0 <= i < self.nodes@.len() && 0 <= k < self.levels(i)
                            && #[trigger] self.adj(i, k).contains(y) implies old(self).adj(
                        i,
                        k,
                    ).contains(y) by {
                        assert(before.adj(i, k).contains(y));
                    }
                    assert forall|u: int| t + 1 <= u < list@.len() implies self.adj(
                        s as int,
                        l as int,
                    ).contains(#[trigger] list@[u]) by {
                        assert(before.adj(s as int, l as int).contains(list@[u]));
                        assert(list@[u] != list@[t as int]);
                    }
                    assert forall|y: usize| #[trigger]
                        self.adj(s as int, l as int).contains(y) implies keep@.contains(y)
                        || exists|u: int| t + 1 <= u < list@.len() && list@[u] == y by {
                        assert(before.adj(s as int, l as int).contains(y));
                        if !keep@.contains(y) {
                            let u = choose|u: int| t <= u < list@.len() && list@[u] == y;
                            assert(t + 1 <= u < list@.len() && list@[u] == y);
                        }
                    }
                    assert forall|i: int| 0 <= i < old(marks)@.len() && old(marks)@[i] implies marks@[i] by {
                        assert(marks0[i]);
                    }
                    assert forall|i: int| 0 <= i < marks@.len() && !#[trigger] marks@[i] implies self.lists_same(
                        old(self),
                        i,
                    ) by {
                        assert(!marks0[i]);
                        assert(before.lists_same(old(self), i));
                        assert forall|k: int| 0 <= k < self.levels(i) implies #[trigger] self.adj(
                            i,
                            k,
                        ) == old(self).adj(i, k) by {
                            assert(before.adj(i, k) == old(self).adj(i, k));
                        }
                    }
                }
            } else {
                proof {
                    assert forall|y: usize| #[trigger]
                        self.adj(s as int, l as int).contains(y) implies keep@.contains(y)
                        || exists|u: int| t + 1 <= u < list@.len() && list@[u] == y by {
                        if !keep@.contains(y) {
                            let u = choose|u: int| t <= u < list@.len() && list@[u] == y;
                            assert(t + 1 <= u < list@.len() && list@[u] == y);
                        }
                    }
                }
            }
            t = t + 1;
        }
        proof {
            assert(self.node_ok(s as int));
            assert(self.list_ok(s as int, l as int));
            let fin = self.adj(s as int, l as int);
            assert forall|i: int| 0 <= i < fin.len() implies keep@.contains(#[trigger] fin[i]) by {
                assert(fin.contains(fin[i]));
            }
            lemma_subset_len(fin, keep@);
        }
    }
}


impl Index {
    /// Whether this index is `old` with one more node, of the given name,
    /// vector and top layer, in the slot after the last: the nodes that were
    /// there keep their names, vectors and layers, and only adjacency lists
    /// may differ.
    pub open(crate) spec fn grown_from(
        &self,
        old: &Index,
        name: Seq<char>,
        data: Seq<i32>,
        lvl: int,
    ) -> bool {
        let q = old.nodes@.len() as int;
        &&& self.nodes@.len() == q + 1
        &&& self.name == old.name
        &&& self.mfunc_kind == old.mfunc_kind
        &&& self.data_dim == old.data_dim
        &&& self.m == old.m
        &&& self.m_max == old.m_max
        &&& self.m_max_0 == old.m_max_0
        &&& self.ef_construction == old.ef_construction
        &&& self.level_mult == old.level_mult
        &&& self.node_count == old.node_count + 1
        &&& self.nodes@[q].live
        &&& self.nodes@[q].name@ == name
        &&& self.nodes@[q].data@ == data
        &&& self.nodes@[q].neighbors@.len() == lvl + 1
        &&& self.nodes@[q].pins == 0
        &&& forall|i: int|
            0 <= i < q ==> {
                &&& (#[trigger] self.nodes@[i]).name == old.nodes@[i].name
                &&& self.nodes@[i].data == old.nodes@[i].data
                &&& self.nodes@[i].live == old.nodes@[i].live
                &&& self.nodes@[i].pins == old.nodes@[i].pins
                &&& self.nodes@[i].neighbors@.len() == old.nodes@[i].neighbors@.len()
            }
        &&& self.max_layer == if lvl > old.max_layer {
            lvl
        } else {
            old.max_layer as int
        }
        &&& self.enterpoint == if old.enterpoint is None || lvl > old.max_layer {
            Some(q as usize)
        } else {
            old.enterpoint
        }
    }

    /// Puts a new node into the slot after the last, with no neighbour yet.
    pub(crate) fn append_node(&mut self, name: String, data: Vec<i32>, lvl: usize) -> (q: usize)
        requires
            old(self).wf(),
            !old(self).has_name(name@),
            data@.len() == old(self).data_dim,
            lvl <= 64,
            old(self).enterpoint is None ==> lvl == 0,
        ensures
            final(self).wf(),
            q == old(self).nodes@.len(),
            final(self).rng == old(self).rng,
            final(self).grown_from(old(self), name@, data@, lvl as int),
            forall|l: int| 0 <= l <= lvl ==> (#[trigger] final(self).adj(q as int, l)).len() == 0,
            forall|i: int| 0 <= i < q ==> #[trigger] final(self).lists_same(old(self), i),
            final(self).lists() == old(self).lists().push(
                Seq::new((lvl + 1) as nat, |l: int| Seq::<usize>::empty()),
            ),
            final(self).vectors() == old(self).vectors().push(data@),
    {
        let ghost data_view = data@;
        let node = Node { name, data, neighbors: empty_lists(lvl), live: true, pins: 0 };
        self.nodes.push(node);
        let n = self.nodes.len();
        let q = n - 1;
        proof {
            lemma_live_upto_bounds(old(self).nodes@, old(self).nodes@.len());
            lemma_live_upto_same(old(self).nodes@, self.nodes@, q as nat);
        }
        self.node_count = self.node_count + 1;
        if self.enterpoint.is_none() || lvl > self.max_layer {
            self.max_layer = lvl;
            self.enterpoint = Some(q);
        }
        proof {
            let o = old(self);
            assert forall|i: int| 0 <= i < q implies #[trigger] self.lists_same(o, i) by {
                assert(self.nodes@[i] == o.nodes@[i]);
            }
            assert forall|i: int| 0 <= i < self.nodes@.len() implies #[trigger] self.node_ok(
                i,
            ) by {
                if i < q {
                    assert(self.nodes@[i] == o.nodes@[i]);
                    assert(o.node_ok(i));
                    if self.nodes@[i].live {
                        assert forall|l: int| 0 <= l < self.levels(i) implies #[trigger] self.list_ok(
                            i,
                            l,
                        ) by {
                            assert(o.list_ok(i, l));
                            assert forall|k: int| 0 <= k < self.adj(i, l).len() implies self.edge_ok(
                                i,
                                l,
                                #[trigger] self.adj(i, l)[k] as int,
                            ) by {
                                let j = self.adj(i, l)[k] as int;
                                assert(o.edge_ok(i, l, o.adj(i, l)[k] as int));
                                assert(self.nodes@[j] == o.nodes@[j]);
                            }
                        }
                    }
                } else {
                    assert forall|l: int| 0 <= l < self.levels(i) implies #[trigger] self.list_ok(
                        i,
                        l,
                    ) by {
                        assert(self.adj(i, l).len() == 0);
                    }
                }
            }
            assert forall|i: int, l: int| #[trigger] self.on_layer(i, l) implies self.adj(
                i,
                l,
            ).len() <= self.cap(l) by {
                if i < q {
                    assert(self.nodes@[i] == o.nodes@[i]);
                    assert(o.on_layer(i, l));
                }
            }
            assert forall|i: int, j: int|
                #[trigger] self.is_live(i) && #[trigger] self.is_live(j) && i != j implies self.name_of(
                i,
            ) != self.name_of(j) by {
                if i < q && j < q {
                    assert(self.nodes@[i] == o.nodes@[i]);
                    assert(self.nodes@[j] == o.nodes@[j]);
                    assert(o.is_live(i) && o.is_live(j));
                } else if i < q {
                    assert(self.nodes@[i] == o.nodes@[i]);
                    assert(o.is_live(i));
                } else {
                    assert(self.nodes@[j] == o.nodes@[j]);
                    assert(o.is_live(j));
                }
            }
            match o.enterpoint {
                Some(e) => {
                    assert(self.nodes@[e as int] == o.nodes@[e as int]);
                },
                None => {},
            }
            assert forall|i: int| 0 <= i < q implies self.nodes@[i] == o.nodes@[i] by {}
            assert(self.vectors() =~= o.vectors().push(data_view));
            assert(self.lists() =~~= o.lists().push(
                Seq::new((lvl + 1) as nat, |l: int| Seq::<usize>::empty()),
            ));
        }
        q
    }

    /// Whether `plan` names, for each layer from 0 up, neighbours that a new
    /// node can be joined to: live nodes of that layer, each once, and no
    /// more than the out-degree asks for.
    pub open(crate) spec fn plan_ok(&self, plan: Seq<Vec<usize>>) -> bool {
        forall|l: int|
            0 <= l < plan.len() ==> {
                &&& (#[trigger] plan[l])@.no_duplicates()
                &&& plan[l]@.len() <= self.m
                &&& forall|t: int|
                    0 <= t < plan[l]@.len() ==> self.on_layer(#[trigger] plan[l]@[t] as int, l)
            }
    }

    /// Chooses the neighbours of a node that is about to come in, layer by
    /// layer. From the entry point the greedy walk goes down to the layer
    /// above the node's top layer; from there on, each layer is searched
    /// with the width of construction from the closest node found on the
    /// layer above, and the heuristic selects from what the search found.
    pub(crate) fn plan_links(&self, data: &Vec<i32>, level: usize) -> (plan: Vec<Vec<usize>>)
        requires
            self.wf(),
            self.enterpoint is Some,
            level <= 64,
        ensures
            plan@.len() == if level < self.max_layer {
                level + 1
            } else {
                self.max_layer + 1
            },
            self.plan_ok(plan@),
            plan_view(plan@) == self.plan_for(data@, level as int),
    {
        let mut cur = self.enterpoint.unwrap();
        let mut l = self.max_layer;
        let ghost kind = self.mfunc_kind;
        let ghost g = self.nodes@;
        let ghost vecs = self.vectors();
        while l > level
            invariant
                self.wf(),
                self.on_layer(cur as int, l as int),
                l <= self.max_layer,
                l >= level || l == self.max_layer,
                kind == self.mfunc_kind,
                g == self.nodes@,
                descend_to(
                    kind,
                    g,
                    data@,
                    self.enterpoint->Some_0 as int,
                    self.max_layer as nat,
                    level as nat,
                ) == descend_to(kind, g, data@, cur as int, l as nat, level as nat),
            decreases l,
        {
            cur = self.walk(data, cur, l);
            l = l - 1;
        }
        let top = l;
        let ghost whole = planned(
            kind,
            g,
            vecs,
            data@,
            cur as int,
            top as nat,
            self.m as int,
            self.ef_construction as int,
        );
        proof {
            assert(whole == self.plan_for(data@, level as int));
        }
        let mut plan = empty_lists(top);
        loop
            invariant_except_break
                self.on_layer(cur as int, l as int),
                forall|k: int|
                    0 <= k <= l ==> (#[trigger] plan@[k])@.len() == 0,
                forall|k: int|
                    l < k <= top ==> {
                        &&& (#[trigger] plan@[k])@.no_duplicates()
                        &&& plan@[k]@.len() <= self.m
                        &&& forall|t: int|
                            0 <= t < plan@[k]@.len() ==> self.on_layer(
                                #[trigger] plan@[k]@[t] as int,
                                k,
                            )
                    },
                whole == planned(
                    kind,
                    g,
                    vecs,
                    data@,
                    cur as int,
                    l as nat,
                    self.m as int,
                    self.ef_construction as int,
                ) + plan_view(plan@).subrange(l + 1, top + 1),
            invariant
                self.wf(),
                l <= top,
                plan@.len() == top + 1,
                kind == self.mfunc_kind,
                g == self.nodes@,
                vecs == self.vectors(),
            ensures
                plan@.len() == top + 1,
                self.plan_ok(plan@),
                whole == plan_view(plan@),
            decreases l,
        {
            let ghost tail = plan_view(plan@).subrange(l + 1, top + 1);
            let found = self.search_layer(data, cur, self.ef_construction, l);
            proof {
                assert forall|t: int| 0 <= t < found@.len() implies self.is_live(
                    (#[trigger] found@[t]).id as int,
                ) by {
                    assert(self.cand_ok(data@, l as int, found@[t]));
                }
            }
            let chosen = self.select_neighbors(&found, self.m);
            let ghost picked = chosen@;
            proof {
                assert forall|u: int| 0 <= u < found@.len() implies 0 <= (#[trigger] found@[u]).id
                    < self.nodes@.len() by {
                    assert(self.is_live(found@[u].id as int));
                }
                self.lemma_select_in(found@, self.m as int, 0, Seq::empty());
                assert forall|t: int| 0 <= t < chosen@.len() implies self.on_layer(
                    #[trigger] chosen@[t] as int,
                    l as int,
                ) by {
                    let u = choose|u: int|
                        0 <= u < found@.len() && (#[trigger] found@[u]).id == chosen@[t];
                    assert(self.cand_ok(data@, l as int, found@[u]));
                }
                assert(self.cand_ok(data@, l as int, found@[0]));
            }
            let ghost before = plan@;
            plan.set(l, chosen);
            cur = found[0].id;
            proof {
                assert forall|k: int| l <= k <= top implies {
                    &&& (#[trigger] plan@[k])@.no_duplicates()
                    &&& plan@[k]@.len() <= self.m
                    &&& forall|t: int|
                        0 <= t < plan@[k]@.len() ==> self.on_layer(
                            #[trigger] plan@[k]@[t] as int,
                            k,
                        )
                } by {
                    if k > l {
                        assert(plan@[k] == before[k]);
                    }
                }
            }
            proof {
                assert(plan_view(plan@).subrange(l as int, top + 1) =~= seq![picked] + tail) by {
                    assert forall|i: int| l < i <= top implies plan@[i] == before[i] by {}
                }
            }
            if l == 0 {
                proof {
                    assert(whole =~= seq![picked] + tail);
                    assert(plan_view(plan@).subrange(0, top + 1) =~= plan_view(plan@));
                }
                break ;
            }
            proof {
                assert forall|k: int| 0 <= k <= l - 1 implies (#[trigger] plan@[k])@.len() == 0 by {
                    assert(plan@[k] == before[k]);
                }
                let next = planned(
                    kind,
                    g,
                    vecs,
                    data@,
                    found@[0].id as int,
                    (l - 1) as nat,
                    self.m as int,
                    self.ef_construction as int,
                );
                assert(whole =~= next.push(picked) + tail);
                assert(next.push(picked) + tail =~= next + (seq![picked] + tail));
            }
            l = l - 1;
        }
        plan
    }
}


impl Index {
    /// Whether the node in slot `q` lists, on each layer of the plan, only
    /// neighbours that the plan names for that layer.
    pub open(crate) spec fn within_plan(&self, q: int, plan: Seq<Vec<usize>>) -> bool {
        forall|l: int, y: usize|
            0 <= l < plan.len() && #[trigger] self.adj(q, l).contains(y) ==> plan[l]@.contains(y)
    }

    /// Joins the node in slot `q`, which has no neighbour yet, to the
    /// neighbours that the plan names, layer by layer. A neighbour whose list
    /// grows beyond what its layer allows is brought down to it at once, and
    /// may part with the new node in doing so.
    pub(crate) fn connect(&mut self, q: usize, plan: &Vec<Vec<usize>>, marks: &mut Vec<bool>)
        requires
            old(self).wf(),
            old(self).is_live(q as int),
            plan@.len() <= old(self).levels(q as int),
            forall|l: int|
                0 <= l < old(self).levels(q as int) ==> (#[trigger] old(self).adj(q as int, l)).len()
                    == 0,
            old(self).plan_ok(plan@),
            forall|l: int, t: int|
                0 <= l < plan@.len() && 0 <= t < plan@[l]@.len() ==> (#[trigger] plan@[l]@[t]) != q,
            old(marks)@.len() == old(self).nodes@.len(),
        ensures
            final(self).wf(),
            final(self).same_but_lists(old(self)),
            final(self).marks_cover(old(self), final(marks)@),
            forall|i: int| 0 <= i < old(marks)@.len() && old(marks)@[i] ==> final(marks)@[i],
            final(self).within_plan(q as int, plan@),
            forall|l: int|
                plan@.len() <= l < final(self).levels(q as int) ==> (#[trigger] final(self).adj(
                    q as int,
                    l,
                )).len() == 0,
            final(self).lists() == connected_lists(
                old(self).mfunc_kind,
                old(self).vectors(),
                old(self).m_max as int,
                old(self).m_max_0 as int,
                old(self).lists(),
                q as int,
                plan_view(plan@),
                0,
            ),
    {
        let mut l: usize = 0;
        let ghost kind = self.mfunc_kind;
        let ghost vecs = self.vectors();
        let ghost whole = connected_lists(
            kind,
            vecs,
            self.m_max as int,
            self.m_max_0 as int,
            self.lists(),
            q as int,
            plan_view(plan@),
            0,
        );
        while l < plan.len()
            invariant
                self.wf(),
                self.same_but_lists(old(self)),
                kind == self.mfunc_kind,
                vecs == self.vectors(),
                whole == connected_lists(
                    kind,
                    vecs,
                    self.m_max as int,
                    self.m_max_0 as int,
                    self.lists(),
                    q as int,
                    plan_view(plan@),
                    l as int,
                ),
                self.is_live(q as int),
                plan@.len() <= self.levels(q as int),
                self.plan_ok(plan@),
                forall|k: int, t: int|
                    0 <= k < plan@.len() && 0 <= t < plan@[k]@.len() ==> (#[trigger] plan@[k]@[t])
                        != q,
                l <= plan@.len(),
                marks@.len() == self.nodes@.len(),
                marks@.len() == old(marks)@.len(),
                self.marks_cover(old(self), marks@),
                forall|i: int| 0 <= i < old(marks)@.len() && old(marks)@[i] ==> marks@[i],
                forall|k: int, y: usize|
                    0 <= k < l && #[trigger] self.adj(q as int, k).contains(y) ==> plan@[k]@.contains(
                        y,
                    ),
                forall|k: int|
                    l <= k < self.levels(q as int) ==> (#[trigger] self.adj(q as int, k)).len() == 0,
            decreases plan@.len() - l,
        {
            let mut t: usize = 0;
            let ghost layer_start = self.lists();
            while t < plan[l].len()
                invariant
                    self.wf(),
                    self.same_but_lists(old(self)),
                    kind == self.mfunc_kind,
                    vecs == self.vectors(),
                    joined_lists(
                        kind,
                        vecs,
                        self.m_max as int,
                        self.m_max_0 as int,
                        layer_start,
                        q as int,
                        l as int,
                        plan@[l as int]@,
                        0,
                    ) == joined_lists(
                        kind,
                        vecs,
                        self.m_max as int,
                        self.m_max_0 as int,
                        self.lists(),
                        q as int,
                        l as int,
                        plan@[l as int]@,
                        t as int,
                    ),
                    self.is_live(q as int),
                    plan@.len() <= self.levels(q as int),
                    self.plan_ok(plan@),
                    forall|k: int, u: int|
                        0 <= k < plan@.len() && 0 <= u < plan@[k]@.len() ==> (
                        #[trigger] plan@[k]@[u]) != q,
                    l < plan@.len(),
                    t <= plan@[l as int]@.len(),
                    marks@.len() == self.nodes@.len(),
                    marks@.len() == old(marks)@.len(),
                    self.marks_cover(old(self), marks@),
                    forall|i: int| 0 <= i < old(marks)@.len() && old(marks)@[i] ==> marks@[i],
                    forall|k: int, y: usize|
                        0 <= k < l && #[trigger] self.adj(q as int, k).contains(y)
                            ==> plan@[k]@.contains(y),
                    forall|k: int|
                        l < k < self.levels(q as int) ==> (#[trigger] self.adj(q as int, k)).len()
                            == 0,
                    self.adj(q as int, l as int).len() <= t,
                    forall|y: usize|
                        #[trigger] self.adj(q as int, l as int).contains(y) ==> exists|u: int|
                            0 <= u < t && plan@[l as int]@[u] == y,
                decreases plan@[l as int]@.len() - t,
            {
                let s = plan[l][t];
                let ghost before = *self;
                let ghost marks0 = marks@;
                proof {
                    assert(self.on_layer(plan@[l as int]@[t as int] as int, l as int));
                    assert(plan@[l as int]@[t as int] != q);
                    if self.adj(q as int, l as int).contains(s) {
                        let u = choose|u: int| 0 <= u < t && plan@[l as int]@[u] == s;
                        assert(plan@[l as int]@[u] != plan@[l as int]@[t as int]);
                    }
                }
                self.link(q, s, l);
                marks.set(q, true);
                marks.set(s, true);
                let ghost mid = *self;
                let ghost marks1 = marks@;
                proof {
                    crate::graph::lemma_push_list(before.adj(q as int, l as int), s);
                    assert forall|i: int| 0 <= i < marks1.len() && !#[trigger] marks1[i] implies mid.lists_same(
                        old(self),
                        i,
                    ) by {
                        assert(!marks0[i]);
                        assert(before.lists_same(old(self), i));
                        assert forall|k: int| 0 <= k < mid.levels(i) implies #[trigger] mid.adj(
                            i,
                            k,
                        ) == old(self).adj(i, k) by {
                            assert(before.adj(i, k) == old(self).adj(i, k));
                            assert(mid.adj(i, k) == before.adj(i, k));
                        }
                    }
                    assert forall|i: int| 0 <= i < old(marks)@.len() && old(marks)@[i] implies marks1[i] by {
                        assert(marks0[i]);
                    }
                    assert forall|i: int, k: int|
                        #[trigger] mid.on_layer(i, k) && !(i == s && k == l) implies mid.adj(
                        i,
                        k,
                    ).len() <= mid.cap(k) by {
                        assert(before.on_layer(i, k));
                        if i == q && k == l {
                        } else {
                            assert(mid.adj(i, k) == before.adj(i, k));
                        }
                    }
                    assert(before.on_layer(s as int, l as int));
                    assert(mid.adj(s as int, l as int).len() <= mid.cap(l as int) + 1);
                }
                let limit = if l == 0 {
                    self.m_max_0
                } else {
                    self.m_max
                };
                if self.nodes[s].neighbors[l].len() > limit {
                    self.shrink(s, l, marks);
                    proof {
                        assert forall|i: int| 0 <= i < marks@.len() && !#[trigger] marks@[i] implies self.lists_same(
                            old(self),
                            i,
                        ) by {
                            assert(!marks1[i]);
                            assert(mid.lists_same(old(self), i));
                            assert(self.lists_same(&mid, i));
                            assert forall|k: int| 0 <= k < self.levels(i) implies #[trigger] self.adj(
                                i,
                                k,
                            ) == old(self).adj(i, k) by {
                                assert(mid.adj(i, k) == old(self).adj(i, k));
                                assert(self.adj(i, k) == mid.adj(i, k));
                            }
                        }
                        assert forall|i: int| 0 <= i < old(marks)@.len() && old(marks)@[i] implies marks@[i] by {
                            assert(marks1[i]);
                        }
                        assert forall|i: int, k: int| #[trigger] self.on_layer(i, k) implies self.adj(
                            i,
                            k,
                        ).len() <= self.cap(k) by {
                            assert(mid.on_layer(i, k));
                            assert(self.adj(i, k).len() <= mid.adj(i, k).len());
                        }
                    }
                }
                proof {
                    assert(mid.vectors() =~= vecs);
                    assert(self.vectors() =~= vecs);
                    assert(mid.lists()[s as int][l as int] == mid.adj(s as int, l as int));
                    assert(self.shrunk_from(&mid) || *self == mid);
                    assert forall|k: int, y: usize|
                        0 <= k < l && #[trigger] self.adj(q as int, k).contains(y) implies plan@[k]@.contains(
                        y,
                    ) by {
                        assert(mid.adj(q as int, k).contains(y));
                        assert(mid.adj(q as int, k) == before.adj(q as int, k));
                    }
                    assert forall|k: int| l < k < self.levels(q as int) implies (#[trigger] self.adj(
                        q as int,
                        k,
                    )).len() == 0 by {
                        assert(mid.adj(q as int, k) == before.adj(q as int, k));
                        assert(self.adj(q as int, k).len() <= mid.adj(q as int, k).len());
                    }
                    assert(self.adj(q as int, l as int).len() <= mid.adj(q as int, l as int).len());
                    assert forall|y: usize| #[trigger]
                        self.adj(q as int, l as int).contains(y) implies exists|u: int|
                        0 <= u < t + 1 && plan@[l as int]@[u] == y by {
                        assert(mid.adj(q as int, l as int).contains(y));
                        if y == s {
                            assert(plan@[l as int]@[t as int] == y);
                        } else {
                            assert(before.adj(q as int, l as int).contains(y));
                            let u = choose|u: int| 0 <= u < t && plan@[l as int]@[u] == y;
                            assert(0 <= u < t + 1 && plan@[l as int]@[u] == y);
                        }
                    }
                }
                t = t + 1;
            }
            proof {
                assert forall|k: int, y: usize|
                    0 <= k < l + 1 && #[trigger] self.adj(q as int, k).contains(y) implies plan@[k]@.contains(
                    y,
                ) by {
                    if k == l {
                        let u = choose|u: int| 0 <= u < t && plan@[l as int]@[u] == y;
                        assert(plan@[l as int]@[u] == y);
                    }
                }
                assert(plan_view(plan@)[l as int] == plan@[l as int]@);
            }
            l = l + 1;
        }
        proof {
            assert(old(self).vectors() =~= vecs);
        }
    }
}


/// No two strings of the list hold the same text.
pub open spec fn distinct_texts(v: Seq<String>) -> bool {
    forall|a: int, b: int| 0 <= a < b < v.len() ==> (#[trigger] v[a])@ != (#[trigger] v[b])@
}

/// Whether a string of the list holds the text.
pub open spec fn has_text(v: Seq<String>, text: Seq<char>) -> bool {
    exists|t: int| 0 <= t < v.len() && (#[trigger] v[t])@ == text
}

impl Index {
    /// What an insertion leaves behind. `self` is `old` with one more node:
    /// of the given name and vector, in the slot after the last, and on the
    /// layers up to `level` (up to 0 in an index that was empty). The new
    /// node is the entry point if the index was empty or the node stands
    /// above the old top layer. The adjacency lists are those that joining
    /// the node to the neighbours chosen for it gives; so the neighbours of
    /// the node on a layer are nodes that stood on that layer before, no
    /// more than `m` of them, and none above the old top layer. `touched`
    /// names each node once whose lists may have changed, in the order of
    /// the slots, which has the new node last.
    pub open(crate) spec fn inserted(
        &self,
        old: &Index,
        name: Seq<char>,
        data: Seq<i32>,
        level: int,
        touched: Seq<String>,
    ) -> bool {
        let lvl = if old.enterpoint is None {
            0
        } else {
            level
        };
        let q = old.nodes@.len() as int;
        &&& self.grown_from(old, name, data, lvl)
        &&& touched.len() >= 1
        &&& touched[touched.len() - 1]@ == name
        &&& distinct_texts(touched)
        &&& self.in_slot_order(touched, touched.len() as int)
        &&& forall|t: int| 0 <= t < touched.len() ==> self.has_name((#[trigger] touched[t])@)
        &&& forall|i: int|
            0 <= i < q && old.is_live(i) && !#[trigger] self.lists_same(old, i) ==> has_text(
                touched,
                old.name_of(i),
            )
        &&& forall|l: int, y: usize|
            0 <= l <= lvl && #[trigger] self.adj(q, l).contains(y) ==> old.on_layer(y as int, l)
        &&& forall|l: int| 0 <= l <= lvl ==> (#[trigger] self.adj(q, l)).len() <= self.m
        &&& forall|l: int| old.max_layer < l <= lvl ==> (#[trigger] self.adj(q, l)).len() == 0
        &&& self.lists() == old.lists_with(data, lvl)
    }

    /// Whether the first `n` names of a list stand in the order of the slots
    /// of their nodes.
    pub open(crate) spec fn in_slot_order(&self, names: Seq<String>, n: int) -> bool {
        forall|a: int, b: int|
            0 <= a < b < n ==> self.slot_of((#[trigger] names[a])@) < self.slot_of(
                (#[trigger] names[b])@,
            )
    }

    /// Whether a live marked node among the first `upto` slots goes by the
    /// name.
    pub open(crate) spec fn marked_name(&self, marks: Seq<bool>, upto: int, text: Seq<char>) -> bool {
        exists|i: int|
            0 <= i < upto && #[trigger] self.is_live(i) && marks[i] && self.name_of(i) == text
    }

    /// The names of the live marked nodes among the first `upto` slots, in
    /// the order of the slots.
    pub(crate) fn marked_names(&self, marks: &Vec<bool>, upto: usize) -> (touched: Vec<String>)
        requires
            self.wf(),
            upto <= self.nodes@.len(),
            marks@.len() == self.nodes@.len(),
        ensures
            distinct_texts(touched@),
            forall|t: int|
                0 <= t < touched@.len() ==> self.marked_name(
                    marks@,
                    upto as int,
                    (#[trigger] touched@[t])@,
                ),
            forall|i: int|
                0 <= i < upto && #[trigger] self.is_live(i) && marks@[i] ==> has_text(
                    touched@,
                    self.name_of(i),
                ),
            self.in_slot_order(touched@, touched@.len() as int),
            forall|t: int|
                0 <= t < touched@.len() ==> self.slot_of((#[trigger] touched@[t])@) < upto,
    {
        let mut touched: Vec<String> = Vec::new();
        let ghost mut ids: Seq<int> = Seq::empty();
        let mut i: usize = 0;
        while i < upto
            invariant
                self.wf(),
                upto <= self.nodes@.len(),
                marks@.len() == self.nodes@.len(),
                i <= upto,
                ids.len() == touched@.len(),
                forall|t: int|
                    0 <= t < ids.len() ==> 0 <= #[trigger] ids[t] < i && self.is_live(ids[t])
                        && marks@[ids[t]] && touched@[t]@ == self.name_of(ids[t]),
                forall|a: int, b: int| 0 <= a < b < ids.len() ==> #[trigger] ids[a] < #[trigger] ids[b],
                forall|j: int|
                    0 <= j < i && #[trigger] self.is_live(j) && marks@[j] ==> has_text(
                        touched@,
                        self.name_of(j),
                    ),
            decreases upto - i,
        {
            if marks[i] && self.nodes[i].live {
                let ghost before = touched@;
                touched.push(self.nodes[i].name.clone());
                proof {
                    ids = ids.push(i as int);
                    assert forall|j: int|
                        0 <= j < i + 1 && #[trigger] self.is_live(j) && marks@[j] implies has_text(
                        touched@,
                        self.name_of(j),
                    ) by {
                        if j < i {
                            let t = choose|t: int|
                                0 <= t < before.len() && (#[trigger] before[t])@ == self.name_of(j);
                            assert(touched@[t]@ == self.name_of(j));
                        } else {
                            assert(touched@[before.len() as int]@ == self.name_of(j));
                        }
                    }
                }
            }
            i = i + 1;
        }
        proof {
            assert forall|a: int, b: int| 0 <= a < b < touched@.len() implies (
            #[trigger] touched@[a])@ != (#[trigger] touched@[b])@ by {
                assert(ids[a] < ids[b]);
                assert(self.is_live(ids[a]) && self.is_live(ids[b]));
                assert(touched@[a]@ == self.name_of(ids[a]));
                assert(touched@[b]@ == self.name_of(ids[b]));
            }
            assert forall|t: int| 0 <= t < touched@.len() implies self.marked_name(
                marks@,
                upto as int,
                (#[trigger] touched@[t])@,
            ) by {
                assert(self.is_live(ids[t]) && touched@[t]@ == self.name_of(ids[t]));
            }
            assert forall|t: int| 0 <= t < touched@.len() implies self.slot_of(
                (#[trigger] touched@[t])@,
            ) == ids[t] by {
                let y = self.slot_of(touched@[t]@);
                assert(self.is_live(ids[t]) && self.name_of(ids[t]) == touched@[t]@);
                assert(self.is_live(y) && self.name_of(y) == touched@[t]@);
            }
            assert forall|a: int, b: int| 0 <= a < b < touched@.len() implies self.slot_of(
                (#[trigger] touched@[a])@,
            ) < self.slot_of((#[trigger] touched@[b])@) by {
                assert(ids[a] < ids[b]);
            }
        }
        touched
    }

    /// The names of the marked nodes among the first `q` slots, and the name
    /// of the node in slot `q` after them.
    fn touched_names(&self, marks: &Vec<bool>, q: usize) -> (touched: Vec<String>)
        requires
            self.wf(),
            self.is_live(q as int),
            marks@.len() == self.nodes@.len(),
        ensures
            touched@.len() >= 1,
            touched@[touched@.len() - 1]@ == self.name_of(q as int),
            distinct_texts(touched@),
            forall|t: int| 0 <= t < touched@.len() ==> self.has_name((#[trigger] touched@[t])@),
            forall|i: int|
                0 <= i < q && #[trigger] self.is_live(i) && marks@[i] ==> has_text(
                    touched@,
                    self.name_of(i),
                ),
            self.in_slot_order(touched@, touched@.len() as int),
    {
        let mut touched = self.marked_names(marks, q);
        let ghost before = touched@;
        touched.push(self.nodes[q].name.clone());
        proof {
            assert forall|a: int, b: int| 0 <= a < b < touched@.len() implies (
            #[trigger] touched@[a])@ != (#[trigger] touched@[b])@ by {
                assert(self.marked_name(marks@, q as int, before[a]@));
                let i = choose|i: int|
                    0 <= i < q && #[trigger] self.is_live(i) && marks@[i] && self.name_of(i)
                        == before[a]@;
                if b < before.len() {
                    assert(before[a]@ != before[b]@);
                } else {
                    assert(self.is_live(i) && self.is_live(q as int));
                }
            }
            assert forall|t: int| 0 <= t < touched@.len() implies self.has_name(
                (#[trigger] touched@[t])@,
            ) by {
                if t < before.len() {
                    assert(self.marked_name(marks@, q as int, before[t]@));
                    let i = choose|i: int|
                        0 <= i < q && #[trigger] self.is_live(i) && marks@[i] && self.name_of(i)
                            == before[t]@;
                    assert(self.is_live(i));
                } else {
                    assert(self.is_live(q as int));
                }
            }
            assert forall|j: int|
                0 <= j < q && #[trigger] self.is_live(j) && marks@[j] implies has_text(
                touched@,
                self.name_of(j),
            ) by {
                let t = choose|t: int|
                    0 <= t < before.len() && (#[trigger] before[t])@ == self.name_of(j);
                assert(touched@[t]@ == self.name_of(j));
            }
            assert forall|a: int, b: int| 0 <= a < b < touched@.len() implies self.slot_of(
                (#[trigger] touched@[a])@,
            ) < self.slot_of((#[trigger] touched@[b])@) by {
                assert(touched@[a] == before[a]);
                assert(self.slot_of(before[a]@) < q);
                if b < before.len() {
                    assert(touched@[b] == before[b]);
                } else {
                    let y = self.slot_of(touched@[b]@);
                    assert(self.is_live(q as int) && self.name_of(q as int) == touched@[b]@);
                    assert(self.is_live(y) && self.name_of(y) == touched@[b]@);
                }
            }
        }
        touched
    }

    /// Puts a node into the index on the layers up to `level`, and answers
    /// with the names of the nodes to write back: each node whose adjacency
    /// may have changed, once, and the new node last.
    ///
    /// The first node of an index stands on layer 0 whatever `level` says.
    /// A vector of the wrong dimension, or a level above `MAX_LEVEL`, is a
    /// bad argument; a name that is taken already exists. The index is then
    /// as it was.
    pub fn insert_at_level(&mut self, name: &str, data: &Vec<i32>, level: usize) -> (r: Result<
        Vec<String>,
        Error,
    >)
        requires
            old(self).wf(),
        ensures
            final(self).wf(),
            final(self).spec_rng() == old(self).spec_rng(),
            r == Err::<Vec<String>, Error>(Error::BadArgument) <==> (data@.len() != old(
                self,
            ).spec_data_dim() || level > MAX_LEVEL),
            r == Err::<Vec<String>, Error>(Error::AlreadyExists) <==> (data@.len() == old(
                self,
            ).spec_data_dim() && level <= MAX_LEVEL && old(self).has_name(name@)),
            r is Err ==> r->Err_0 == Error::BadArgument || r->Err_0 == Error::AlreadyExists,
            r is Err ==> *final(self) == *old(self),
            r is Ok ==> final(self).inserted(old(self), name@, data@, level as int, r->Ok_0@),
    {
        if data.len() != self.data_dim || level > MAX_LEVEL {
            return Err(Error::BadArgument);
        }
        if self.find(name).is_some() {
            return Err(Error::AlreadyExists);
        }
        let key = String::from_str(name);
        let vector = copy_vector(data);
        if self.enterpoint.is_none() {
            let q = self.append_node(key, vector, 0);
            let marks = no_marks(self.nodes.len());
            let touched = self.touched_names(&marks, q);
            proof {
                assert forall|i: int|
                    0 <= i < q && old(self).is_live(i) && !#[trigger] self.lists_same(
                        old(self),
                        i,
                    ) implies has_text(touched@, old(self).name_of(i)) by {}
                assert(self.lists() == old(self).lists_with(data@, 0));
            }
            return Ok(touched);
        }
        let plan = self.plan_links(data, level);
        let q = self.append_node(key, vector, level);
        let ghost mid = *self;
        proof {
            assert(mid.m_max == old(self).m_max && mid.m_max_0 == old(self).m_max_0);
        }
        let mut marks = no_marks(self.nodes.len());
        proof {
            assert forall|l: int| 0 <= l < plan@.len() implies {
                &&& (#[trigger] plan@[l])@.no_duplicates()
                &&& plan@[l]@.len() <= self.m
                &&& forall|t: int|
                    0 <= t < plan@[l]@.len() ==> self.on_layer(#[trigger] plan@[l]@[t] as int, l)
            } by {
                assert forall|t: int| 0 <= t < plan@[l]@.len() implies self.on_layer(
                    #[trigger] plan@[l]@[t] as int,
                    l,
                ) by {
                    assert(old(self).on_layer(plan@[l]@[t] as int, l));
                }
            }
            assert forall|l: int, t: int|
                0 <= l < plan@.len() && 0 <= t < plan@[l]@.len() implies (
            #[trigger] plan@[l]@[t]) != q by {
                assert(old(self).on_layer(plan@[l]@[t] as int, l));
            }
        }
        self.connect(q, &plan, &mut marks);
        let touched = self.touched_names(&marks, q);
        proof {
            let o = old(self);
            assert forall|i: int|
                0 <= i < q && o.is_live(i) && !#[trigger] self.lists_same(o, i) implies has_text(
                touched@,
                o.name_of(i),
            ) by {
                if !marks@[i] {
                    assert(self.lists_same(&mid, i));
                    assert(mid.lists_same(o, i));
                    assert forall|k: int| 0 <= k < self.levels(i) implies #[trigger] self.adj(
                        i,
                        k,
                    ) == o.adj(i, k) by {
                        assert(self.adj(i, k) == mid.adj(i, k));
                        assert(mid.adj(i, k) == o.adj(i, k));
                    }
                }
                assert(self.is_live(i));
            }
            assert forall|l: int, y: usize|
                0 <= l <= level && #[trigger] self.adj(q as int, l).contains(y) implies o.on_layer(
                y as int,
                l,
            ) by {
                if l < plan@.len() {
                    assert(plan@[l]@.contains(y));
                    let t = choose|t: int| 0 <= t < plan@[l]@.len() && plan@[l]@[t] == y;
                    assert(o.on_layer(plan@[l]@[t] as int, l));
                } else {
                    assert(self.adj(q as int, l).len() == 0);
                }
            }
            assert forall|l: int| 0 <= l <= level implies (#[trigger] self.adj(q as int, l)).len()
                <= self.m by {
                if l < plan@.len() {
                    assert(self.node_ok(q as int));
                    assert(self.list_ok(q as int, l));
                    let s = self.adj(q as int, l);
                    assert forall|t: int| 0 <= t < s.len() implies plan@[l]@.contains(
                        #[trigger] s[t],
                    ) by {
                        assert(s.contains(s[t]));
                    }
                    lemma_subset_len(s, plan@[l]@);
                } else {
                    assert(self.adj(q as int, l).len() == 0);
                }
            }
            assert forall|l: int| o.max_layer < l <= level implies (#[trigger] self.adj(
                q as int,
                l,
            )).len() == 0 by {}
            assert(self.lists() == o.lists_with(data@, level as int));
        }
        Ok(touched)
    }
}


impl Index {
    /// Whether `other` is this index but for the state of its generator.
    pub open(crate) spec fn same_but_rng(&self, other: &Index) -> bool {
        &&& self.name == other.name
        &&& self.mfunc_kind == other.mfunc_kind
        &&& self.data_dim == other.data_dim
        &&& self.m == other.m
        &&& self.m_max == other.m_max
        &&& self.m_max_0 == other.m_max_0
        &&& self.ef_construction == other.ef_construction
        &&& self.level_mult == other.level_mult
        &&& self.node_count == other.node_count
        &&& self.max_layer == other.max_layer
        &&& self.enterpoint == other.enterpoint
        &&& self.nodes == other.nodes
    }

    /// Nothing that holds of an index between two operations reads the
    /// generator.
    pub(crate) proof fn lemma_wf_ignores_rng(&self, other: &Index)
        requires
            self.same_but_rng(other),
            self.wf(),
        ensures
            other.wf(),
    {
        assert forall|i: int| 0 <= i < other.nodes@.len() implies #[trigger] other.node_ok(i) by {
            assert(self.node_ok(i));
            if other.nodes@[i].live {
                assert forall|l: int| 0 <= l < other.levels(i) implies #[trigger] other.list_ok(
                    i,
                    l,
                ) by {
                    assert(self.list_ok(i, l));
                    assert forall|k: int| 0 <= k < other.adj(i, l).len() implies other.edge_ok(
                        i,
                        l,
                        #[trigger] other.adj(i, l)[k] as int,
                    ) by {
                        assert(self.edge_ok(i, l, self.adj(i, l)[k] as int));
                    }
                }
            }
        }
        assert forall|i: int, l: int| #[trigger] other.on_layer(i, l) implies other.adj(
            i,
            l,
        ).len() <= other.cap(l) by {
            assert(self.on_layer(i, l));
        }
        assert forall|i: int, j: int|
            #[trigger] other.is_live(i) && #[trigger] other.is_live(j) && i != j implies other.name_of(
            i,
        ) != other.name_of(j) by {
            assert(self.is_live(i) && self.is_live(j));
        }
        assert forall|i: int| other.is_live(i) == self.is_live(i) by {}
    }

    /// What `add_node` leaves behind when the generator gave `sample`: the
    /// node has come in on the layers up to `level`, the top layer that the
    /// sample stands for.
    pub open(crate) spec fn inserted_by(
        &self,
        old: &Index,
        name: Seq<char>,
        data: Seq<i32>,
        sample: u64,
        level: int,
        touched: Seq<String>,
    ) -> bool {
        &&& 0 <= level <= MAX_LEVEL
        &&& is_level(sample, old.m as int, level as nat)
        &&& self.inserted(old, name, data, level, touched)
    }

    /// What `add_node` leaves behind: the first node of an index has come in
    /// on layer 0 and the generator was left alone; any other node has come
    /// in on the layers up to the top layer that some sample stands for.
    pub open(crate) spec fn node_added(
        &self,
        old: &Index,
        name: Seq<char>,
        data: Seq<i32>,
        touched: Seq<String>,
    ) -> bool {
        if old.enterpoint is None {
            self.rng == old.rng && self.inserted(old, name, data, 0, touched)
        } else {
            exists|sample: u64, level: int| #[trigger]
                self.inserted_by(old, name, data, sample, level, touched)
        }
    }

    /// Puts a node into the index, and answers with the names of the nodes
    /// to write back: each node whose adjacency may have changed, once, and
    /// the new node last.
    ///
    /// The first node of an index stands on layer 0, and the generator is
    /// left alone. For every other node the generator is asked for one
    /// sample, which gives the node's top layer. A vector of the wrong
    /// dimension is a bad argument; a name that is taken already exists. The
    /// index is then as it was, generator included.
    pub fn add_node(&mut self, name: &str, data: &Vec<i32>) -> (r: Result<Vec<String>, Error>)
        requires
            old(self).wf(),
        ensures
            final(self).wf(),
            r == Err::<Vec<String>, Error>(Error::BadArgument) <==> data@.len() != old(
                self,
            ).spec_data_dim(),
            r == Err::<Vec<String>, Error>(Error::AlreadyExists) <==> (data@.len() == old(
                self,
            ).spec_data_dim() && old(self).has_name(name@)),
            r is Err ==> r->Err_0 == Error::BadArgument || r->Err_0 == Error::AlreadyExists,
            r is Err ==> *final(self) == *old(self),
            r is Ok ==> final(self).node_added(old(self), name@, data@, r->Ok_0@),
    {
        if data.len() != self.data_dim {
            return Err(Error::BadArgument);
        }
        if self.find(name).is_some() {
            return Err(Error::AlreadyExists);
        }
        if self.enterpoint.is_none() {
            return self.insert_at_level(name, data, 0);
        }
        let sample = next_sample(&mut self.rng);
        let level = level_for(sample, self.m);
        let ghost mid = *self;
        proof {
            old(self).lemma_wf_ignores_rng(&mid);
            assert(!mid.has_name(name@)) by {
                if mid.has_name(name@) {
                    let i = choose|i: int| #[trigger] mid.is_live(i) && mid.name_of(i) == name@;
                    assert(old(self).is_live(i) && old(self).name_of(i) == name@);
                }
            }
        }
        let r = self.insert_at_level(name, data, level);
        proof {
            let o = old(self);
            let touched = r->Ok_0@;
            assert(self.inserted(&mid, name@, data@, level as int, touched));
            assert forall|i: int|
                0 <= i < o.nodes@.len() && o.is_live(i) && !#[trigger] self.lists_same(
                    o,
                    i,
                ) implies has_text(touched, o.name_of(i)) by {
                if self.lists_same(&mid, i) {
                    assert forall|k: int| 0 <= k < self.levels(i) implies #[trigger] self.adj(
                        i,
                        k,
                    ) == o.adj(i, k) by {
                        assert(self.adj(i, k) == mid.adj(i, k));
                    }
                }
                assert(mid.is_live(i));
            }
            assert forall|l: int, y: usize|
                0 <= l <= level && #[trigger] self.adj(o.nodes@.len() as int, l).contains(
                    y,
                ) implies o.on_layer(y as int, l) by {
                assert(mid.on_layer(y as int, l));
            }
            assert(mid.lists_with(data@, level as int) == o.lists_with(data@, level as int)) by {
                assert(mid.plan_for(data@, level as int) == o.plan_for(data@, level as int));
            }
            assert(self.inserted(o, name@, data@, level as int, touched));
            assert(self.inserted_by(o, name@, data@, sample, level as int, touched));
        }
        r
    }
}

} // verus!
