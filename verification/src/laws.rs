use crate::cand::closer;
use crate::cand::has_id;
use crate::cand::Cand;
use crate::index::Index;
use crate::kann::SearchResult;
use vstd::prelude::*;

verus! {

impl Index {
    /// Whether the slots of `p` are a walk on layer `l`: each lists the next.
    pub open(crate) spec fn is_walk(&self, p: Seq<int>, l: int) -> bool {
        &&& p.len() >= 1
        &&& forall|t: int| 0 <= t < p.len() - 1 ==> self.linked(#[trigger] p[t], p[t + 1], l)
    }

    /// Whether a walk on layer `l` leads from slot `a` to slot `b`.
    pub open(crate) spec fn reaches(&self, a: int, b: int, l: int) -> bool {
        exists|p: Seq<int>| #[trigger] self.is_walk(p, l) && p[0] == a && p[p.len() - 1] == b
    }

    /// Whether every node of layer `l` can be reached from every other.
    pub open(crate) spec fn layer_connected(&self, l: int) -> bool {
        forall|a: int, b: int|
            self.on_layer(a, l) && self.on_layer(b, l) ==> #[trigger] self.reaches(a, b, l)
    }
}

/// No node lists more neighbours on a layer than the layer allows: twice the
/// out-degree on layer 0, the out-degree above.
pub proof fn law_degree_bounded(idx: &Index, i: int, l: int)
    requires
        idx.wf(),
        idx.on_layer(i, l),
    ensures
        idx.adj(i, l).len() <= idx.cap(l),
        idx.cap(l) == if l == 0 {
            2 * idx.spec_m()
        } else {
            idx.spec_m()
        },
{
}

/// Between two operations adjacency is symmetric: a node lists another on a
/// layer if and only if the other lists it there.
pub proof fn law_adjacency_symmetric(idx: &Index, a: int, b: int, l: int)
    requires
        idx.wf(),
    ensures
        idx.linked(a, b, l) <==> idx.linked(b, a, l),
{
    if idx.linked(a, b, l) {
        lemma_edge_back(idx, a, b, l);
    }
    if idx.linked(b, a, l) {
        lemma_edge_back(idx, b, a, l);
    }
}

proof fn lemma_edge_back(idx: &Index, a: int, b: int, l: int)
    requires
        idx.wf(),
        idx.linked(a, b, l),
    ensures
        idx.linked(b, a, l),
        a != b,
        idx.on_layer(b, l),
{
    assert(idx.node_ok(a));
    assert(idx.list_ok(a, l));
    let k = choose|k: int| 0 <= k < idx.adj(a, l).len() && idx.adj(a, l)[k] == b as usize;
    assert(idx.edge_ok(a, l, idx.adj(a, l)[k] as int));
}

/// A neighbour is a live node of the same layer, it goes by a name of the
/// index, and no node is its own neighbour: no reference leads out of the
/// node store.
pub proof fn law_neighbours_are_members(idx: &Index, a: int, b: int, l: int)
    requires
        idx.wf(),
        idx.linked(a, b, l),
    ensures
        idx.on_layer(b, l),
        idx.has_name(idx.name_of(b)),
        a != b,
{
    lemma_edge_back(idx, a, b, l);
    assert(idx.is_live(b));
}

/// A node stands on every layer from 0 up to its top layer, and on no
/// other.
pub proof fn law_layers_are_nested(idx: &Index, i: int, l: int)
    requires
        idx.wf(),
        idx.is_live(i),
    ensures
        idx.levels(i) >= 1,
        idx.on_layer(i, l) <==> 0 <= l <= idx.levels(i) - 1,
{
    assert(idx.node_ok(i));
}

/// The entry point, if there is one, stands on the top layer, and no node
/// stands above the top layer. An index without an entry point is empty, and
/// its top layer is layer 0.
pub proof fn law_entry_point_on_top(idx: &Index)
    requires
        idx.wf(),
    ensures
        forall|i: int, l: int| #[trigger] idx.on_layer(i, l) ==> l <= idx.spec_max_layer(),
        idx.spec_enterpoint() is Some ==> idx.on_layer(
            idx.spec_enterpoint()->Some_0 as int,
            idx.spec_max_layer(),
        ) && idx.spec_node_count() > 0,
        idx.spec_enterpoint() is None ==> idx.spec_max_layer() == 0 && idx.spec_node_count() == 0
            && forall|i: int| !#[trigger] idx.is_live(i),
{
    idx.lemma_entry_iff_nonempty();
    assert forall|i: int, l: int| #[trigger] idx.on_layer(i, l) implies l <= idx.spec_max_layer() by {
        assert(idx.node_ok(i));
    }
}

/// One node goes by each name: two live slots of one name are one slot.
pub proof fn law_one_node_per_name(idx: &Index, i: int, j: int)
    requires
        idx.wf(),
        idx.is_live(i),
        idx.is_live(j),
        idx.name_of(i) == idx.name_of(j),
    ensures
        i == j,
        idx.slot_of(idx.name_of(i)) == i,
{
    let y = idx.slot_of(idx.name_of(i));
    assert(idx.is_live(y) && idx.name_of(y) == idx.name_of(i));
}

/// Deleting a node and adding one of the same name brings back the names
/// that the index held before, and every other name still stands for the
/// vector that it stood for.
pub proof fn law_delete_then_add(
    before: &Index,
    between: &Index,
    after: &Index,
    name: Seq<char>,
    data: Seq<i32>,
    level: int,
    parted: Seq<String>,
    joined: Seq<String>,
)
    requires
        before.wf(),
        between.wf(),
        after.wf(),
        before.has_name(name),
        between.deleted(before, name, parted),
        after.inserted(between, name, data, level, joined),
    ensures
        forall|key: Seq<char>| #[trigger] after.has_name(key) <==> before.has_name(key),
        forall|key: Seq<char>|
            key != name && #[trigger] before.has_name(key) ==> after.vector_of(after.slot_of(key))
                == before.vector_of(before.slot_of(key)),
        after.spec_node_count() == before.spec_node_count(),
{
    let x = before.slot_of(name);
    assert(before.is_live(x) && before.name_of(x) == name);
    let q = between.nodes@.len() as int;
    assert forall|key: Seq<char>| #[trigger] after.has_name(key) <==> before.has_name(key) by {
        if after.has_name(key) {
            let i = after.slot_of(key);
            assert(after.is_live(i) && after.name_of(i) == key);
            if i < q {
                assert(after.nodes@[i].live == between.nodes@[i].live);
                assert(between.nodes@[i].live);
                assert(i != x);
                assert(between.nodes@[i].name == before.nodes@[i].name);
                assert(before.is_live(i) && before.name_of(i) == key);
            }
        }
        if before.has_name(key) {
            let i = before.slot_of(key);
            assert(before.is_live(i) && before.name_of(i) == key);
            if i == x {
                assert(after.is_live(q) && after.name_of(q) == key);
            } else {
                assert(between.nodes@[i].live == before.nodes@[i].live);
                assert(after.nodes@[i].live == between.nodes@[i].live);
                assert(after.nodes@[i].name == between.nodes@[i].name);
                assert(after.is_live(i) && after.name_of(i) == key);
            }
        }
    }
    assert forall|key: Seq<char>| key != name && #[trigger] before.has_name(key) implies after.vector_of(
        after.slot_of(key),
    ) == before.vector_of(before.slot_of(key)) by {
        let i = before.slot_of(key);
        assert(before.is_live(i) && before.name_of(i) == key);
        assert(i != x);
        assert(between.nodes@[i].live == before.nodes@[i].live);
        assert(after.nodes@[i].live == between.nodes@[i].live);
        assert(after.nodes@[i].name == between.nodes@[i].name);
        assert(after.is_live(i) && after.name_of(i) == key);
        let j = after.slot_of(key);
        assert(after.is_live(j) && after.name_of(j) == key);
        assert(j == i);
        assert(after.nodes@[i].data == between.nodes@[i].data);
    }
}

/// A result list that is not full beats no live node.
proof fn lemma_never_beaten(idx: &Index, q: Seq<i32>, ef: int, w: Seq<Cand>, n: int)
    requires
        idx.wf(),
        idx.is_live(n),
        crate::cand::distinct_ids(w),
        idx.cands_ok(q, 0, w),
        ef >= idx.spec_node_count(),
    ensures
        !idx.beaten(q, w, ef, n),
{
    if idx.beaten(q, w, ef, n) {
        let ids = Seq::new(w.len(), |t: int| w[t].id as int).push(n);
        assert forall|t: int| 0 <= t < ids.len() implies idx.is_live(#[trigger] ids[t]) && ids[t]
            < idx.nodes@.len() by {
            if t < w.len() {
                assert(idx.cand_ok(q, 0, w[t]));
            }
        }
        assert forall|a: int, b: int| 0 <= a < b < ids.len() implies #[trigger] ids[a]
            != #[trigger] ids[b] by {
            if b < w.len() {
                assert(w[a].id != w[b].id);
            } else {
                assert(idx.cand_ok(q, 0, w[a]));
                assert(closer(w[a], idx.cand_of(q, n)));
                if w[a].id as int == n {
                    assert(w[a] == idx.cand_of(q, n));
                }
            }
        }
        idx.lemma_live_ids_bound(ids, idx.nodes@.len());
    }
}

/// Saturation: a search on layer 0 whose width is at least the number of
/// nodes finds every node, provided that layer 0 is connected.
pub proof fn law_saturated_search(idx: &Index, q: Seq<i32>, entry: int, ef: int, w: Seq<Cand>)
    requires
        idx.wf(),
        idx.is_live(entry),
        idx.layer_result(q, entry, ef, 0, w),
        ef >= idx.spec_node_count(),
        idx.layer_connected(0),
    ensures
        w.len() == idx.spec_node_count(),
        forall|i: int| #[trigger] idx.is_live(i) ==> has_id(w, i as usize),
{
    lemma_never_beaten(idx, q, ef, w, entry);
    assert(idx.node_ok(entry));
    assert forall|i: int| #[trigger] idx.is_live(i) implies has_id(w, i as usize) by {
        assert(idx.node_ok(i));
        assert(idx.on_layer(entry, 0) && idx.on_layer(i, 0));
        assert(idx.reaches(entry, i, 0));
        let p = choose|p: Seq<int>|
            #[trigger] idx.is_walk(p, 0) && p[0] == entry && p[p.len() - 1] == i;
        lemma_walk_stays(idx, q, ef, w, p, p.len() - 1);
    }
    let ids = Seq::new(w.len(), |t: int| w[t].id as int);
    assert forall|t: int| 0 <= t < ids.len() implies idx.is_live(#[trigger] ids[t]) && ids[t]
        < idx.nodes@.len() by {
        assert(idx.cand_ok(q, 0, w[t]));
    }
    assert forall|a: int, b: int| 0 <= a < b < ids.len() implies #[trigger] ids[a]
        != #[trigger] ids[b] by {
        assert(w[a].id != w[b].id);
    }
    assert forall|i: int| 0 <= i < idx.nodes@.len() && #[trigger] idx.is_live(
        i,
    ) implies ids.contains(i) by {
        assert(has_id(w, i as usize));
        let t = choose|t: int| 0 <= t < w.len() && (#[trigger] w[t]).id == i as usize;
        assert(ids[t] == i);
    }
    idx.lemma_live_ids_bound(ids, idx.nodes@.len());
}

/// Every node of a walk that starts among the results of a saturated search
/// is among them.
proof fn lemma_walk_stays(idx: &Index, q: Seq<i32>, ef: int, w: Seq<Cand>, p: Seq<int>, upto: int)
    requires
        idx.wf(),
        crate::cand::distinct_ids(w),
        idx.cands_ok(q, 0, w),
        idx.closed_results(q, 0, ef, w),
        ef >= idx.spec_node_count(),
        idx.is_walk(p, 0),
        0 <= upto < p.len(),
        has_id(w, p[0] as usize),
        idx.is_live(p[0]),
    ensures
        has_id(w, p[upto] as usize),
        idx.is_live(p[upto]),
    decreases upto,
{
    if upto > 0 {
        lemma_walk_stays(idx, q, ef, w, p, upto - 1);
        let a = p[upto - 1];
        let b = p[upto];
        assert(idx.linked(a, b, 0));
        lemma_edge_back(idx, a, b, 0);
        let t = choose|t: int| 0 <= t < w.len() && (#[trigger] w[t]).id == a as usize;
        let k = choose|k: int| 0 <= k < idx.adj(a, 0).len() && idx.adj(a, 0)[k] == b as usize;
        assert(idx.adj(w[t].id as int, 0)[k] == b as usize);
        assert(has_id(w, idx.adj(w[t].id as int, 0)[k]) || idx.beaten(
            q,
            w,
            ef,
            idx.adj(w[t].id as int, 0)[k] as int,
        ));
        lemma_never_beaten(idx, q, ef, w, b);
    }
}

/// A search for at least as many nodes as the index holds answers with all
/// of them, provided that layer 0 is connected.
pub proof fn law_search_returns_all(idx: &Index, q: Seq<i32>, k: int, hits: Seq<SearchResult>)
    requires
        idx.wf(),
        idx.kann_hits(q, k, hits),
        k >= idx.spec_node_count(),
        idx.layer_connected(0),
    ensures
        hits.len() == idx.spec_node_count(),
        forall|name: Seq<char>| #[trigger]
            idx.has_name(name) ==> exists|t: int|
                0 <= t < hits.len() && (#[trigger] hits[t]).name@ == name,
{
    let (entry, w) = choose|entry: int, w: Seq<Cand>|
        idx.is_live(entry) && #[trigger] idx.layer_result(q, entry, idx.search_width(k), 0, w)
            && idx.hits_match(
            hits,
            w.take(
                if k <= w.len() {
                    k
                } else {
                    w.len() as int
                },
            ),
        );
    law_saturated_search(idx, q, entry, idx.search_width(k), w);
    assert(w.take(w.len() as int) == w);
    assert forall|name: Seq<char>| #[trigger] idx.has_name(name) implies exists|t: int|
        0 <= t < hits.len() && (#[trigger] hits[t]).name@ == name by {
        let i = idx.slot_of(name);
        assert(idx.is_live(i) && idx.name_of(i) == name);
        assert(has_id(w, i as usize));
        let t = choose|t: int| 0 <= t < w.len() && (#[trigger] w[t]).id == i as usize;
        assert(hits[t].name@ == idx.name_of(w[t].id as int));
    }
}


/// A search is a function of the state of the index and of the query: two
/// answers to one search name the same nodes, in the same order, with the
/// same similarities.
pub proof fn law_search_is_a_function(
    idx: &Index,
    q: Seq<i32>,
    k: int,
    first: Seq<SearchResult>,
    second: Seq<SearchResult>,
)
    requires
        idx.hits_match(first, idx.kann_answer(q, k)),
        idx.hits_match(second, idx.kann_answer(q, k)),
    ensures
        first.len() == second.len(),
        forall|t: int|
            0 <= t < first.len() ==> (#[trigger] first[t]).sim == second[t].sim && first[t].name@
                == second[t].name@,
{
}

/// The generator has no part in a search: two indexes that differ in the
/// state of their generators alone give the same answer. The generator moves
/// only when a node comes in.
pub proof fn law_search_ignores_generator(a: &Index, b: &Index, q: Seq<i32>, k: int)
    requires
        a.same_but_rng(b),
    ensures
        a.kann_answer(q, k) == b.kann_answer(q, k),
{
}

} // verus!
