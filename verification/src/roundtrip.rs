use crate::index::Index;
use crate::records::decode_index;
use crate::records::decode_node;
use crate::records::index_fields;
use crate::records::law_index_record_round_trip;
use crate::records::law_node_record_round_trip;
use crate::records::lists_fit;
use crate::records::node_fields;
use crate::records::IndexRedisView;
use crate::records::NodeRedisView;
use crate::index::live_upto;
use crate::insert::copy_vector;
use crate::records::IndexRedis;
use crate::records::NodeRedis;
use crate::restore::make_index;
use crate::restore::records_of;
use crate::index::Node;
use crate::restore::absent;
use crate::restore::buildable;
use crate::restore::first_at;
use crate::restore::has_dangling;
use crate::restore::node_built;
use crate::restore::restorable;
use vstd::prelude::*;

verus! {

impl Index {
    /// Whether no slot of the store is empty: no node has left the index.
    pub open(crate) spec fn is_compact(&self) -> bool {
        forall|i: int| 0 <= i < self.nodes@.len() ==> #[trigger] self.is_live(i)
    }

    /// The records of all nodes, in the order of the slots.
    pub open(crate) spec fn records(&self) -> Seq<Option<NodeRedisView>> {
        Seq::new(self.nodes@.len(), |i: int| Some(self.record_of(i)))
    }

    /// Where no slot is empty, the header names the nodes slot by slot.
    proof fn lemma_compact_names(&self, n: nat)
        requires
            self.wf(),
            self.is_compact(),
            n <= self.nodes@.len(),
        ensures
            self.names_on_upto(0, n).len() == n,
            forall|i: int| 0 <= i < n ==> #[trigger] self.names_on_upto(0, n)[i] == self.name_of(i),
        decreases n,
    {
        if n > 0 {
            self.lemma_compact_names((n - 1) as nat);
            assert(self.is_live(n - 1));
            assert(self.node_ok(n - 1));
        }
    }
}

/// Any two indexes that one snapshot stands for hold the same graph: the
/// same nodes with the same vectors in the same slots, the same neighbours
/// on every layer, the same entry point and the same parameters.
pub proof fn law_restored_graphs_agree(
    a: &Index,
    b: &Index,
    h: IndexRedisView,
    recs: Seq<Option<NodeRedisView>>,
)
    requires
        a.wf(),
        b.wf(),
        a.restores(h, recs),
        b.restores(h, recs),
    ensures
        a.same_graph(b),
{
    assert forall|i: int| 0 <= i < a.nodes@.len() implies {
        &&& (#[trigger] a.nodes@[i]).name@ == b.nodes@[i].name@
        &&& a.nodes@[i].data@ == b.nodes@[i].data@
        &&& a.nodes@[i].live == b.nodes@[i].live
        &&& a.nodes@[i].neighbors@.len() == b.nodes@[i].neighbors@.len()
        &&& (a.nodes@[i].live || a.nodes@[i].pins == b.nodes@[i].pins)
    } by {
        assert(a.node_restored(h, recs, i));
        assert(b.node_restored(h, recs, i));
        a.lemma_witness_lists(h, recs, i);
        b.lemma_witness_lists(h, recs, i);
    }
    assert forall|i: int, l: int|
        0 <= i < a.nodes@.len() && 0 <= l < a.levels(i) implies #[trigger] a.adj(i, l) == b.adj(
        i,
        l,
    ) by {
        a.lemma_witness_lists(h, recs, i);
        b.lemma_witness_lists(h, recs, i);
        let mine = a.adj(i, l);
        let theirs = b.adj(i, l);
        assert forall|k: int| 0 <= k < mine.len() implies mine[k] == theirs[k] by {
            assert(h.nodes[mine[k] as int] == recs[i]->Some_0.neighbors[l][k]);
            assert(h.nodes[theirs[k] as int] == recs[i]->Some_0.neighbors[l][k]);
            a.lemma_witness_unique(h, recs, mine[k] as int, theirs[k] as int);
        }
        assert(mine =~= theirs);
    }
    match h.enterpoint {
        Some(text) => {
            let ea = a.enterpoint->Some_0 as int;
            let eb = b.enterpoint->Some_0 as int;
            assert(a.is_live(ea) && b.is_live(eb));
            assert(a.node_restored(h, recs, ea));
            assert(b.node_restored(h, recs, eb));
            a.lemma_witness_unique(h, recs, ea, eb);
        },
        None => {},
    }
}

/// The snapshot of an index without empty slot stands for that index.
pub proof fn law_snapshot_restores(idx: &Index)
    requires
        idx.wf(),
        idx.is_compact(),
    ensures
        idx.restores(idx.header(), idx.records()),
{
    let h = idx.header();
    let recs = idx.records();
    idx.lemma_compact_names(idx.nodes@.len());
    assert forall|i: int| 0 <= i < idx.nodes@.len() implies #[trigger] idx.node_restored(
        h,
        recs,
        i,
    ) by {
        assert(idx.is_live(i));
    }
    assert(idx.nodes_restored(h, recs));
    idx.mfunc_kind.lemma_tag_round_trip();
    assert(idx.state_restored(h));
    assert forall|l: int, t: int|
        0 <= l < h.layers.len() && 0 <= t < h.layers[l].len() implies idx.names_layer(
        l,
        #[trigger] h.layers[l][t],
    ) by {
        let i = idx.lemma_names_on_members(l, idx.nodes@.len(), t);
        assert(idx.on_layer(i, l));
    }
    assert(idx.layers_restored(h));
}

/// Save, then load, for an index without empty slot: an index whose
/// snapshot is written to the stream, read back and restored comes back
/// with the same graph, slot by slot.
pub proof fn law_save_then_load_compact(idx: &Index, restored: &Index)
    requires
        idx.wf(),
        idx.is_compact(),
        idx.entry_name() != Some("null"@),
        restored.wf(),
        decode_index(index_fields(idx.header())) is Some,
        restored.restores(decode_index(index_fields(idx.header()))->Some_0, idx.records()),
    ensures
        decode_index(index_fields(idx.header())) == Some(idx.header()),
        idx.same_graph(restored),
{
    let h = idx.header();
    lemma_header_fits(idx);
    law_index_record_round_trip(h);
    law_snapshot_restores(idx);
    law_restored_graphs_agree(idx, restored, h, idx.records());
}

impl Index {
    /// The live slots among the first `n`, in their order.
    pub open(crate) spec fn live_slots(&self, n: nat) -> Seq<int>
        decreases n,
    {
        if n == 0 {
            Seq::empty()
        } else if self.on_layer(n - 1, 0) {
            self.live_slots((n - 1) as nat).push(n - 1)
        } else {
            self.live_slots((n - 1) as nat)
        }
    }

    /// The records of the nodes, in the order in which the header names
    /// them.
    pub open(crate) spec fn live_records(&self) -> Seq<Option<NodeRedisView>> {
        Seq::new(
            self.live_slots(self.nodes@.len()).len(),
            |j: int| Some(self.record_of(self.live_slots(self.nodes@.len())[j])),
        )
    }

    /// The header names the nodes of the live slots, in their order.
    proof fn lemma_live_slots(&self, n: nat)
        requires
            n <= self.nodes@.len(),
        ensures
            self.live_slots(n).len() == self.names_on_upto(0, n).len(),
            forall|j: int|
                0 <= j < self.live_slots(n).len() ==> 0 <= (#[trigger] self.live_slots(n)[j]) < n
                    && self.on_layer(self.live_slots(n)[j], 0) && self.names_on_upto(0, n)[j]
                    == self.name_of(self.live_slots(n)[j]),
        decreases n,
    {
        if n > 0 {
            self.lemma_live_slots((n - 1) as nat);
        }
    }
}

/// Save, then load: an index whose snapshot is written to the stream, read
/// back and restored comes back with the same parameters, the same nodes
/// under the same names, each with the same vector and, on every layer, the
/// same neighbours by name, and with the same entry point. The slots may
/// differ, since a restored index has no empty slot. This is stated of an
/// index whose entry point is not named `null`.
pub proof fn law_save_then_load(idx: &Index, restored: &Index)
    requires
        idx.wf(),
        idx.entry_name() != Some("null"@),
        restored.wf(),
        decode_index(index_fields(idx.header())) is Some,
        restored.restores(decode_index(index_fields(idx.header()))->Some_0, idx.live_records()),
    ensures
        decode_index(index_fields(idx.header())) == Some(idx.header()),
        forall|i: int|
            #[trigger] idx.is_live(i) ==> decode_node(node_fields(idx.record_of(i))) == Some(
                idx.record_of(i),
            ),
        restored.spec_name() == idx.spec_name(),
        restored.spec_metric() == idx.spec_metric(),
        restored.spec_data_dim() == idx.spec_data_dim(),
        restored.spec_m() == idx.spec_m(),
        restored.spec_ef_construction() == idx.spec_ef_construction(),
        restored.spec_level_mult() == idx.spec_level_mult(),
        restored.spec_node_count() == idx.spec_node_count(),
        restored.spec_max_layer() == idx.spec_max_layer(),
        restored.entry_name() == idx.entry_name(),
        forall|name: Seq<char>| #[trigger] restored.has_name(name) <==> idx.has_name(name),
        forall|name: Seq<char>| #[trigger]
            idx.has_name(name) ==> restored.vector_of(restored.slot_of(name)) == idx.vector_of(
                idx.slot_of(name),
            ) && restored.neighbor_names(restored.slot_of(name)) == idx.neighbor_names(
                idx.slot_of(name),
            ),
{
    let h = idx.header();
    let recs = idx.live_records();
    let n = idx.nodes@.len();
    lemma_header_fits(idx);
    law_index_record_round_trip(h);
    assert forall|i: int| #[trigger] idx.is_live(i) implies decode_node(
        node_fields(idx.record_of(i)),
    ) == Some(idx.record_of(i)) by {
        lemma_record_fits(idx, i);
        law_node_record_round_trip(idx.record_of(i));
    }
    idx.lemma_live_slots(n);
    idx.mfunc_kind.lemma_tag_round_trip();
    assert(restored.state_restored(h));
    let slots = idx.live_slots(n);
    assert forall|name: Seq<char>| #[trigger] restored.has_name(name) <==> idx.has_name(name) by {
        if restored.has_name(name) {
            let j = restored.slot_of(name);
            assert(restored.is_live(j) && restored.name_of(j) == name);
            assert(restored.node_restored(h, recs, j));
            assert(idx.on_layer(slots[j], 0));
            assert(idx.is_live(slots[j]) && idx.name_of(slots[j]) == name);
        }
        if idx.has_name(name) {
            let i = idx.slot_of(name);
            assert(idx.is_live(i) && idx.name_of(i) == name);
            assert(idx.node_ok(i));
            idx.lemma_names_on_hold(0, n, i);
            let j = choose|j: int| 0 <= j < h.nodes.len() && h.nodes[j] == name;
            assert(restored.node_restored(h, recs, j));
            assert(restored.is_live(j) && restored.name_of(j) == name);
        }
    }
    assert forall|name: Seq<char>| #[trigger] idx.has_name(name) implies restored.vector_of(
        restored.slot_of(name),
    ) == idx.vector_of(idx.slot_of(name)) && restored.neighbor_names(restored.slot_of(name))
        == idx.neighbor_names(idx.slot_of(name)) by {
        let i = idx.slot_of(name);
        assert(idx.is_live(i) && idx.name_of(i) == name);
        let j = restored.slot_of(name);
        assert(restored.has_name(name));
        assert(restored.is_live(j) && restored.name_of(j) == name);
        assert(restored.node_restored(h, recs, j));
        assert(idx.on_layer(slots[j], 0));
        assert(idx.is_live(slots[j]) && idx.name_of(slots[j]) == name);
        assert(slots[j] == i);
    }
}

/// The lists of a header are of lengths that a machine can hold.
proof fn lemma_header_fits(idx: &Index)
    requires
        idx.wf(),
    ensures
        lists_fit(idx.header().layers),
        idx.header().nodes.len() <= usize::MAX,
{
    let n = idx.nodes@.len();
    assert forall|l: int| 0 <= l < idx.header().layers.len() implies (
    #[trigger] idx.header().layers[l]).len() <= usize::MAX by {
        lemma_names_on_len(idx, l, n);
    }
    lemma_names_on_len(idx, 0, n);
}

/// A layer names no more nodes than there are slots.
proof fn lemma_names_on_len(idx: &Index, l: int, n: nat)
    ensures
        idx.names_on_upto(l, n).len() <= n,
    decreases n,
{
    if n > 0 {
        lemma_names_on_len(idx, l, (n - 1) as nat);
    }
}

/// The lists of a node record are of lengths that a machine can hold.
proof fn lemma_record_fits(idx: &Index, i: int)
    requires
        idx.wf(),
        idx.is_live(i),
    ensures
        idx.record_of(i).data.len() <= usize::MAX,
        lists_fit(idx.record_of(i).neighbors),
{
    assert(idx.node_ok(i));
    if idx.nodes@[i].live {
        assert forall|l: int| 0 <= l < idx.record_of(i).neighbors.len() implies (
        #[trigger] idx.record_of(i).neighbors[l]).len() <= usize::MAX by {
            assert(idx.on_layer(i, l));
            assert(idx.adj(i, l).len() <= idx.cap(l));
        }
    }
}


/// Where every slot is live, the live nodes are as many as the slots.
proof fn lemma_all_live_count(nodes: Seq<Node>, n: nat)
    requires
        n <= nodes.len(),
        forall|i: int| 0 <= i < n ==> (#[trigger] nodes[i]).live,
    ensures
        live_upto(nodes, n) == n,
    decreases n,
{
    if n > 0 {
        lemma_all_live_count(nodes, (n - 1) as nat);
    }
}

impl Index {
    /// The live slots stand in their order, each live node among them, and
    /// they are as many as the live nodes.
    proof fn lemma_live_slots_order(&self, n: nat)
        requires
            self.wf(),
            n <= self.nodes@.len(),
        ensures
            forall|a: int, b: int|
                0 <= a < b < self.live_slots(n).len() ==> #[trigger] self.live_slots(n)[a]
                    < #[trigger] self.live_slots(n)[b],
            forall|i: int|
                0 <= i < n && #[trigger] self.is_live(i) ==> self.live_slots(n).contains(i),
            self.live_slots(n).len() == live_upto(self.nodes@, n),
        decreases n,
    {
        if n > 0 {
            self.lemma_live_slots_order((n - 1) as nat);
            self.lemma_live_slots((n - 1) as nat);
            let before = self.live_slots((n - 1) as nat);
            let now = self.live_slots(n);
            assert(self.node_ok(n - 1));
            assert forall|i: int| 0 <= i < n && #[trigger] self.is_live(i) implies now.contains(
                i,
            ) by {
                if i < n - 1 {
                    assert(before.contains(i));
                    let j = choose|j: int| 0 <= j < before.len() && before[j] == i;
                    assert(now[j] == i);
                } else {
                    assert(now[now.len() - 1] == i);
                }
            }
        }
    }

    /// The place of a live slot among the live slots.
    proof fn lemma_place_of_slot(&self, i: int) -> (j: int)
        requires
            self.wf(),
            self.is_live(i),
        ensures
            0 <= j < self.live_slots(self.nodes@.len()).len(),
            self.live_slots(self.nodes@.len())[j] == i,
            self.header().nodes[j] == self.name_of(i),
    {
        let n = self.nodes@.len();
        self.lemma_live_slots_order(n);
        self.lemma_live_slots(n);
        let slots = self.live_slots(n);
        assert(slots.contains(i));
        let j = choose|j: int| 0 <= j < slots.len() && slots[j] == i;
        j
    }

    /// In the header of an index a name stands once, at the place of its
    /// node among the live slots.
    proof fn lemma_first_at_slot(&self, text: Seq<char>, j: int)
        requires
            self.wf(),
            first_at(self.header().nodes, text, j),
        ensures
            0 <= j < self.live_slots(self.nodes@.len()).len(),
            self.is_live(self.live_slots(self.nodes@.len())[j]),
            self.name_of(self.live_slots(self.nodes@.len())[j]) == text,
            self.live_slots(self.nodes@.len())[j] == self.slot_of(text),
    {
        let n = self.nodes@.len();
        self.lemma_live_slots(n);
        let i = self.live_slots(n)[j];
        assert(self.on_layer(i, 0));
        assert(self.is_live(i) && self.name_of(i) == text);
        let y = self.slot_of(text);
        assert(self.is_live(y) && self.name_of(y) == text);
    }
}

/// The snapshot of an index stands for an index: every name of it resolves,
/// and of the index put together from it holds what holds of an index
/// between two operations. So an index that has been saved can be loaded.
pub proof fn law_snapshot_is_restorable(idx: &Index)
    requires
        idx.wf(),
    ensures
        restorable(idx.header(), idx.live_records()),
{
    let h = idx.header();
    let recs = idx.live_records();
    let n = idx.nodes@.len();
    let slots = idx.live_slots(n);
    idx.lemma_live_slots(n);
    idx.lemma_live_slots_order(n);
    assert forall|j: int| 0 <= j < recs.len() implies (#[trigger] recs[j]) is Some
        && !has_dangling(h.nodes, recs[j]->Some_0.neighbors) by {
        let lists = recs[j]->Some_0.neighbors;
        let i = slots[j];
        assert(idx.on_layer(i, 0));
        if has_dangling(h.nodes, lists) {
            let (l, k) = choose|l: int, k: int|
                0 <= l < lists.len() && 0 <= k < lists[l].len() && #[trigger] absent(
                    h.nodes,
                    lists[l][k],
                );
            assert(lists == idx.neighbor_names(i));
            assert(lists[l] == idx.names_of(idx.adj(i, l)));
            let y = idx.adj(i, l)[k] as int;
            assert(idx.node_ok(i));
            assert(idx.list_ok(i, l));
            assert(idx.edge_ok(i, l, idx.adj(i, l)[k] as int));
            let p = idx.lemma_place_of_slot(y);
            assert(h.nodes[p] == lists[l][k]);
        }
    }
    match idx.enterpoint {
        Some(e) => {
            let p = idx.lemma_place_of_slot(e as int);
            assert(h.nodes[p] == h.enterpoint->Some_0);
        },
        None => {},
    }
    assert(buildable(h, recs));
    assert forall|c: Index| #[trigger] c.built_from(h, recs) implies c.wf() && c.layers_restored(
        h,
    ) by {
        lemma_built_from_snapshot(idx, &c);
    }
}

/// Of an index put together from the snapshot of an index holds what holds
/// of an index between two operations, and the layers of the header name
/// nodes of its own.
proof fn lemma_built_from_snapshot(idx: &Index, c: &Index)
    requires
        idx.wf(),
        c.built_from(idx.header(), idx.live_records()),
    ensures
        c.wf(),
        c.layers_restored(idx.header()),
{
    let h = idx.header();
    let recs = idx.live_records();
    let n = idx.nodes@.len();
    let slots = idx.live_slots(n);
    idx.lemma_live_slots(n);
    idx.lemma_live_slots_order(n);
    lemma_names_on_len(idx, 0, n);
    assert forall|j: int| 0 <= j < c.nodes@.len() implies #[trigger] c.node_ok(j) && (forall|
        l: int,
    | #[trigger] c.on_layer(j, l) ==> c.adj(j, l).len() <= c.cap(l)) by {
        lemma_built_node(idx, c, j);
    }
    assert(c.graph_ok());
    assert forall|j: int, l: int| #[trigger] c.on_layer(j, l) implies c.adj(j, l).len() <= c.cap(
        l,
    ) by {
        assert(c.node_ok(j));
    }
    assert forall|a: int, b: int|
        #[trigger] c.is_live(a) && #[trigger] c.is_live(b) && a != b implies c.name_of(a)
        != c.name_of(b) by {
        assert(node_built(c.nodes@[a], h, recs, a));
        assert(node_built(c.nodes@[b], h, recs, b));
        assert(idx.on_layer(slots[a], 0) && idx.on_layer(slots[b], 0));
        if a < b {
            assert(slots[a] < slots[b]);
        } else {
            assert(slots[b] < slots[a]);
        }
        assert(idx.is_live(slots[a]) && idx.is_live(slots[b]));
    }
    match idx.enterpoint {
        Some(e) => {
            let e2 = c.enterpoint->Some_0 as int;
            idx.lemma_first_at_slot(h.enterpoint->Some_0, e2);
            assert(idx.is_live(e as int));
            assert(idx.slot_of(idx.name_of(e as int)) == e) by {
                let y = idx.slot_of(idx.name_of(e as int));
                assert(idx.is_live(y) && idx.name_of(y) == idx.name_of(e as int));
            }
            assert(node_built(c.nodes@[e2], h, recs, e2));
            assert(c.levels(e2) == idx.levels(e as int)) by {
                assert(recs[e2]->Some_0.neighbors == idx.neighbor_names(slots[e2]));
            }
        },
        None => {
            assert(slots.len() == 0) by {
                if slots.len() > 0 {
                    assert(idx.on_layer(slots[0], 0));
                    assert(idx.is_live(slots[0]));
                }
            }
            assert forall|i: int| !#[trigger] c.is_live(i) by {}
        },
    }
    assert forall|j: int| 0 <= j < c.nodes@.len() implies (#[trigger] c.nodes@[j]).live by {
        assert(node_built(c.nodes@[j], h, recs, j));
    }
    lemma_all_live_count(c.nodes@, c.nodes@.len());
    assert(c.wf());
    assert forall|l: int, t: int|
        0 <= l < h.layers.len() && 0 <= t < h.layers[l].len() implies c.names_layer(
        l,
        #[trigger] h.layers[l][t],
    ) by {
        let i = idx.lemma_names_on_members(l, n, t);
        let j = idx.lemma_place_of_slot(i);
        assert(node_built(c.nodes@[j], h, recs, j));
        assert(recs[j]->Some_0.neighbors == idx.neighbor_names(slots[j]));
        assert(c.levels(j) == idx.levels(i));
        assert(c.on_layer(j, l) && c.name_of(j) == h.layers[l][t]);
    }
}

/// One slot of an index put together from the snapshot of an index is in
/// order.
proof fn lemma_built_node(idx: &Index, c: &Index, j: int)
    requires
        idx.wf(),
        c.built_from(idx.header(), idx.live_records()),
        0 <= j < c.nodes@.len(),
    ensures
        c.node_ok(j),
        forall|l: int| #[trigger] c.on_layer(j, l) ==> c.adj(j, l).len() <= c.cap(l),
{
    let h = idx.header();
    let recs = idx.live_records();
    let n = idx.nodes@.len();
    let slots = idx.live_slots(n);
    idx.lemma_live_slots(n);
    idx.lemma_live_slots_order(n);
    let i = slots[j];
    assert(node_built(c.nodes@[j], h, recs, j));
    assert(idx.on_layer(i, 0));
    assert(idx.node_ok(i));
    let lists = recs[j]->Some_0.neighbors;
    assert(lists == idx.neighbor_names(i));
    assert(c.levels(j) == idx.levels(i));
    assert forall|l: int| 0 <= l < c.levels(j) implies #[trigger] c.list_ok(j, l) && c.adj(
        j,
        l,
    ).len() <= c.cap(l) by {
        assert(idx.list_ok(i, l));
        assert(idx.on_layer(i, l));
        assert(lists[l] == idx.names_of(idx.adj(i, l)));
        let mine = c.adj(j, l);
        let theirs = idx.adj(i, l);
        assert(mine == c.nodes@[j].neighbors@[l]@);
        assert(mine.len() == theirs.len());
        assert forall|k: int| 0 <= k < mine.len() implies slots[#[trigger] mine[k] as int]
            == theirs[k] && 0 <= mine[k] < c.nodes@.len() by {
            assert(first_at(h.nodes, lists[l][k], c.nodes@[j].neighbors@[l]@[k] as int));
            idx.lemma_first_at_slot(lists[l][k], mine[k] as int);
            assert(idx.edge_ok(i, l, idx.adj(i, l)[k] as int));
            let y = theirs[k] as int;
            assert(idx.is_live(y) && idx.name_of(y) == lists[l][k]);
            let z = idx.slot_of(lists[l][k]);
            assert(idx.is_live(z) && idx.name_of(z) == lists[l][k]);
        }
        assert forall|k1: int, k2: int|
            0 <= k1 < mine.len() && 0 <= k2 < mine.len() && k1 != k2 implies mine[k1]
            != mine[k2] by {
            assert(slots[mine[k1] as int] == theirs[k1]);
            assert(slots[mine[k2] as int] == theirs[k2]);
            assert(theirs[k1] != theirs[k2]);
        }
        assert forall|k: int| 0 <= k < mine.len() implies c.edge_ok(
            j,
            l,
            #[trigger] mine[k] as int,
        ) by {
            let y2 = mine[k] as int;
            let y = theirs[k] as int;
            assert(slots[mine[k] as int] == theirs[k]);
            assert(idx.edge_ok(i, l, idx.adj(i, l)[k] as int));
            assert(node_built(c.nodes@[y2], h, recs, y2));
            assert(recs[y2]->Some_0.neighbors == idx.neighbor_names(y));
            assert(c.levels(y2) == idx.levels(y));
            let back = idx.adj(y, l);
            assert(back.contains(i as usize));
            let k2 = choose|k2: int| 0 <= k2 < back.len() && back[k2] == i as usize;
            let theirs_back = c.adj(y2, l);
            assert(theirs_back == c.nodes@[y2].neighbors@[l]@);
            assert(recs[y2]->Some_0.neighbors[l] == idx.names_of(back));
            assert(first_at(
                h.nodes,
                recs[y2]->Some_0.neighbors[l][k2],
                c.nodes@[y2].neighbors@[l]@[k2] as int,
            ));
            let z = theirs_back[k2] as int;
            idx.lemma_first_at_slot(recs[y2]->Some_0.neighbors[l][k2], z);
            assert(idx.name_of(i) == recs[y2]->Some_0.neighbors[l][k2]);
            assert(idx.slot_of(idx.name_of(i)) == i) by {
                let w = idx.slot_of(idx.name_of(i));
                assert(idx.is_live(w) && idx.name_of(w) == idx.name_of(i));
                assert(idx.is_live(i));
            }
            assert(slots[z] == i);
            assert(z == j) by {
                if z < j {
                    assert(slots[z] < slots[j]);
                } else if j < z {
                    assert(slots[j] < slots[z]);
                }
            }
            assert(theirs_back[k2] == j as usize);
            if y2 == j {
                assert(slots[y2] == i);
            }
        }
    }
    assert forall|l: int| #[trigger] c.on_layer(j, l) implies c.adj(j, l).len() <= c.cap(l) by {
        assert(c.list_ok(j, l));
    }
}


impl Index {
    /// The records of the nodes, in the order in which the header names
    /// them: what is written beside the header when the index is saved.
    pub fn node_records(&self) -> (r: Vec<Option<NodeRedis>>)
        requires
            self.wf(),
        ensures
            records_of(r@) == self.live_records(),
    {
        let mut out: Vec<Option<NodeRedis>> = Vec::new();
        let mut i: usize = 0;
        proof {
            assert(records_of(out@) =~= Seq::new(
                0,
                |j: int| Some(self.record_of(self.live_slots(0)[j])),
            ));
        }
        while i < self.nodes.len()
            invariant
                self.wf(),
                i <= self.nodes@.len(),
                out@.len() == self.live_slots(i as nat).len(),
                forall|j: int|
                    0 <= j < out@.len() ==> (#[trigger] records_of(out@)[j]) == Some(
                        self.record_of(self.live_slots(i as nat)[j]),
                    ),
            decreases self.nodes@.len() - i,
        {
            let ghost before = records_of(out@);
            if self.nodes[i].live {
                proof {
                    assert(self.is_live(i as int));
                    assert(self.node_ok(i as int));
                }
                let record = NodeRedis {
                    data: copy_vector(&self.nodes[i].data),
                    neighbors: self.neighbors_of_slot(i),
                };
                proof {
                    assert(record@ == self.record_of(i as int));
                }
                out.push(Some(record));
                proof {
                    assert(records_of(out@) =~= before.push(Some(self.record_of(i as int))));
                }
            } else {
                proof {
                    assert(!self.on_layer(i as int, 0));
                }
            }
            i = i + 1;
        }
        proof {
            assert(records_of(out@) =~= self.live_records());
        }
        out
    }

    /// Saves the index and loads it again: the index that the snapshot of
    /// this index stands for. It holds the same nodes under the same names,
    /// with the same vectors and neighbours, and no empty slot; the levels
    /// of nodes that come in later are drawn from a generator that `seed`
    /// fixes.
    pub fn reopen(&self, seed: u64) -> (r: Index)
        requires
            self.wf(),
        ensures
            r.wf(),
            r.restores(self.header(), self.live_records()),
            r.is_compact(),
            forall|i: int| 0 <= i < r.slots() ==> #[trigger] r.pins_of(i) == 0,
    {
        let header = IndexRedis::from_index(self);
        let records = self.node_records();
        proof {
            law_snapshot_is_restorable(self);
        }
        match make_index(&header, &records, seed) {
            Ok(index) => {
                proof {
                    assert(index.nodes_restored(self.header(), self.live_records()));
                    assert forall|i: int| 0 <= i < index.nodes@.len() implies #[trigger] index.is_live(
                        i,
                    ) by {
                        assert(index.node_restored(self.header(), self.live_records(), i));
                    }
                }
                index
            },
            Err(_) => {
                proof {
                    assert(false);
                }
                vstd::pervasive::unreached()
            },
        }
    }
}

} // verus!
