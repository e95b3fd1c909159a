use crate::error::Error;
use crate::index::Index;
use crate::index::Node;
use crate::insert::copy_vector;
use crate::level::seeded_rng;
use crate::metrics::MetricFuncs;
use crate::records::IndexRedis;
use crate::records::IndexRedisView;
use crate::records::NodeRedis;
use crate::records::NodeRedisView;
use crate::store::texts_of;
use crate::store::texts_of_lists;
use vstd::prelude::*;
use vstd::string::*;

verus! {

/// What a list of node records holds, where `None` stands for a node whose
/// record is missing.
pub open spec fn records_of(records: Seq<Option<NodeRedis>>) -> Seq<Option<NodeRedisView>> {
    Seq::new(
        records.len(),
        |i: int|
            match records[i] {
                Some(r) => Some(r@),
                None => None,
            },
    )
}

/// Whether the text stands nowhere in a list.
pub open spec fn absent(names: Seq<Seq<char>>, text: Seq<char>) -> bool {
    forall|j: int| 0 <= j < names.len() ==> #[trigger] names[j] != text
}

/// Whether `j` is the first place of a list at which the text stands.
pub open spec fn first_at(names: Seq<Seq<char>>, text: Seq<char>, j: int) -> bool {
    &&& 0 <= j < names.len()
    &&& names[j] == text
    &&& forall|k: int| 0 <= k < j ==> names[k] != text
}

/// The metric that a header's tag stands for when an index is restored: a
/// tag that names none stands for the Euclidean metric.
pub open spec fn metric_of_tag(tag: Seq<char>) -> MetricFuncs {
    match MetricFuncs::of_tag(tag) {
        Some(kind) => kind,
        None => MetricFuncs::Euclidean,
    }
}

impl Index {
    /// Whether this index is what a header and the records of its nodes
    /// stand for. Its slots hold the nodes in the order of the header, each
    /// with the vector of its record and with the neighbours that its record
    /// names; its parameters, its state and its entry point are those of the
    /// header; and every name in a layer of the header is the name of a node
    /// of that layer.
    pub open(crate) spec fn restores(
        &self,
        h: IndexRedisView,
        recs: Seq<Option<NodeRedisView>>,
    ) -> bool {
        &&& self.nodes_restored(h, recs)
        &&& self.state_restored(h)
        &&& self.layers_restored(h)
    }

    /// The slots hold the nodes in the order of the header, each with the
    /// vector of its record and the neighbours that its record names.
    pub open(crate) spec fn nodes_restored(
        &self,
        h: IndexRedisView,
        recs: Seq<Option<NodeRedisView>>,
    ) -> bool {
        &&& self.nodes@.len() == h.nodes.len()
        &&& recs.len() == h.nodes.len()
        &&& forall|i: int|
            0 <= i < self.nodes@.len() ==> #[trigger] self.node_restored(h, recs, i)
    }

    /// Slot `i` holds the node that the header names at place `i`, with the
    /// vector of its record and the neighbours that its record names.
    pub open(crate) spec fn node_restored(
        &self,
        h: IndexRedisView,
        recs: Seq<Option<NodeRedisView>>,
        i: int,
    ) -> bool {
        &&& self.is_live(i)
        &&& self.name_of(i) == h.nodes[i]
        &&& recs[i] is Some
        &&& self.vector_of(i) == recs[i]->Some_0.data
        &&& self.neighbor_names(i) == recs[i]->Some_0.neighbors
    }

    /// The parameters, the state and the entry point are those of the
    /// header.
    pub open(crate) spec fn state_restored(&self, h: IndexRedisView) -> bool {
        &&& self.name@ == h.name
        &&& self.mfunc_kind == metric_of_tag(h.mfunc_kind)
        &&& self.data_dim == h.data_dim
        &&& self.m == h.m
        &&& self.m_max == h.m_max
        &&& self.m_max_0 == h.m_max_0
        &&& self.ef_construction == h.ef_construction
        &&& self.level_mult == h.level_mult
        &&& self.node_count == h.node_count
        &&& self.max_layer == h.max_layer
        &&& self.entry_name() == h.enterpoint
    }

    /// Every name in a layer of the header is the name of a node of that
    /// layer.
    pub open(crate) spec fn layers_restored(&self, h: IndexRedisView) -> bool {
        forall|l: int, t: int|
            0 <= l < h.layers.len() && 0 <= t < h.layers[l].len() ==> self.names_layer(
                l,
                #[trigger] h.layers[l][t],
            )
    }

    /// Whether a node of layer `l` goes by the name.
    pub open(crate) spec fn names_layer(&self, l: int, text: Seq<char>) -> bool {
        exists|i: int| #[trigger] self.on_layer(i, l) && self.name_of(i) == text
    }
}


/// The first place of a list at which a name stands.
fn position_of(names: &Vec<String>, key: &String) -> (r: Option<usize>)
    ensures
        r is Some ==> first_at(texts_of(names@), key@, r->Some_0 as int),
        r is None ==> absent(texts_of(names@), key@),
{
    let mut j: usize = 0;
    while j < names.len()
        invariant
            j <= names@.len(),
            forall|k: int| 0 <= k < j ==> texts_of(names@)[k] != key@,
        decreases names@.len() - j,
    {
        if names[j] == *key {
            return Some(j);
        }
        j = j + 1;
    }
    None
}

/// The places at which the names of a list stand, if each of them stands
/// somewhere.
fn resolve_list(names: &Vec<String>, list: &Vec<String>) -> (r: Option<Vec<usize>>)
    ensures
        r is Some ==> r->Some_0@.len() == list@.len() && forall|k: int|
            0 <= k < list@.len() ==> first_at(
                texts_of(names@),
                texts_of(list@)[k],
                #[trigger] r->Some_0@[k] as int,
            ),
        r is None ==> exists|k: int|
            0 <= k < list@.len() && #[trigger] absent(texts_of(names@), texts_of(list@)[k]),
{
    let mut out: Vec<usize> = Vec::new();
    let mut k: usize = 0;
    while k < list.len()
        invariant
            k <= list@.len(),
            out@.len() == k,
            forall|t: int|
                0 <= t < k ==> first_at(
                    texts_of(names@),
                    texts_of(list@)[t],
                    #[trigger] out@[t] as int,
                ),
        decreases list@.len() - k,
    {
        match position_of(names, &list[k]) {
            Some(j) => {
                out.push(j);
            },
            None => {
                proof {
                    assert(absent(texts_of(names@), texts_of(list@)[k as int]));
                }
                return None;
            },
        }
        k = k + 1;
    }
    Some(out)
}

/// What the lists of one node resolve to: the places of the names, list by
/// list.
pub open spec fn lists_resolved(
    names: Seq<Seq<char>>,
    lists: Seq<Seq<Seq<char>>>,
    ids: Seq<Vec<usize>>,
) -> bool {
    &&& ids.len() == lists.len()
    &&& forall|l: int|
        0 <= l < lists.len() ==> (#[trigger] ids[l])@.len() == lists[l].len() && forall|k: int|
            0 <= k < lists[l].len() ==> first_at(names, lists[l][k], #[trigger] ids[l]@[k] as int)
}

/// Whether a name of the lists stands nowhere.
pub open spec fn has_dangling(names: Seq<Seq<char>>, lists: Seq<Seq<Seq<char>>>) -> bool {
    exists|l: int, k: int|
        0 <= l < lists.len() && 0 <= k < lists[l].len() && #[trigger] absent(names, lists[l][k])
}

/// The places at which the names of several lists stand.
fn resolve_lists(names: &Vec<String>, lists: &Vec<Vec<String>>) -> (r: Option<Vec<Vec<usize>>>)
    ensures
        r is Some ==> lists_resolved(texts_of(names@), texts_of_lists(lists@), r->Some_0@),
        r is None ==> has_dangling(texts_of(names@), texts_of_lists(lists@)),
{
    let mut out: Vec<Vec<usize>> = Vec::new();
    let mut l: usize = 0;
    while l < lists.len()
        invariant
            l <= lists@.len(),
            out@.len() == l,
            forall|t: int|
                0 <= t < l ==> (#[trigger] out@[t])@.len() == texts_of_lists(lists@)[t].len()
                    && forall|k: int|
                    0 <= k < texts_of_lists(lists@)[t].len() ==> first_at(
                        texts_of(names@),
                        texts_of_lists(lists@)[t][k],
                        #[trigger] out@[t]@[k] as int,
                    ),
        decreases lists@.len() - l,
    {
        match resolve_list(names, &lists[l]) {
            Some(ids) => {
                out.push(ids);
            },
            None => {
                proof {
                    let k = choose|k: int|
                        0 <= k < lists@[l as int]@.len() && #[trigger] absent(
                            texts_of(names@),
                            texts_of(lists@[l as int]@)[k],
                        );
                    assert(texts_of_lists(lists@)[l as int][k] == texts_of(lists@[l as int]@)[k]);
                    assert(absent(texts_of(names@), texts_of_lists(lists@)[l as int][k]));
                }
                return None;
            },
        }
        l = l + 1;
    }
    Some(out)
}


/// One node of an index under construction is what the header and its
/// record say.
pub open(crate) spec fn node_built(
    node: Node,
    h: IndexRedisView,
    recs: Seq<Option<NodeRedisView>>,
    j: int,
) -> bool {
    &&& node.live
    &&& node.pins == 0
    &&& node.name@ == h.nodes[j]
    &&& recs[j] is Some
    &&& node.data@ == recs[j]->Some_0.data
    &&& lists_resolved(h.nodes, recs[j]->Some_0.neighbors, node.neighbors@)
}

impl Index {
    /// This index has been put together from a header and the records of its
    /// nodes, every name resolved to the first slot of that name.
    pub open(crate) spec fn built_from(
        &self,
        h: IndexRedisView,
        recs: Seq<Option<NodeRedisView>>,
    ) -> bool {
        &&& self.nodes@.len() == h.nodes.len()
        &&& recs.len() == h.nodes.len()
        &&& forall|j: int|
            0 <= j < self.nodes@.len() ==> node_built(#[trigger] self.nodes@[j], h, recs, j)
        &&& self.name@ == h.name
        &&& self.mfunc_kind == metric_of_tag(h.mfunc_kind)
        &&& self.data_dim == h.data_dim
        &&& self.m == h.m
        &&& self.m_max == h.m_max
        &&& self.m_max_0 == h.m_max_0
        &&& self.ef_construction == h.ef_construction
        &&& self.level_mult == h.level_mult
        &&& self.node_count == h.node_count
        &&& self.max_layer == h.max_layer
        &&& match h.enterpoint {
            Some(text) => self.enterpoint is Some && first_at(
                h.nodes,
                text,
                self.enterpoint->Some_0 as int,
            ),
            None => self.enterpoint is None,
        }
    }

    /// In an index that a snapshot stands for, a neighbour that a record
    /// names is a slot of that name, and the lists are as long as the
    /// record's.
    pub(crate) proof fn lemma_witness_lists(
        &self,
        h: IndexRedisView,
        recs: Seq<Option<NodeRedisView>>,
        i: int,
    )
        requires
            self.wf(),
            self.restores(h, recs),
            0 <= i < h.nodes.len(),
        ensures
            self.levels(i) == recs[i]->Some_0.neighbors.len(),
            forall|l: int|
                0 <= l < self.levels(i) ==> (#[trigger] self.adj(i, l)).len()
                    == recs[i]->Some_0.neighbors[l].len(),
            forall|l: int, k: int|
                0 <= l < self.levels(i) && 0 <= k < self.adj(i, l).len() ==> 0 <= (
                #[trigger] self.adj(i, l)[k]) < h.nodes.len() && h.nodes[self.adj(i, l)[k] as int]
                    == recs[i]->Some_0.neighbors[l][k],
    {
        assert(self.node_restored(h, recs, i));
        let lists = recs[i]->Some_0.neighbors;
        assert(self.neighbor_names(i) == lists);
        assert(self.neighbor_names(i).len() == self.levels(i));
        assert forall|l: int| 0 <= l < self.levels(i) implies (#[trigger] self.adj(i, l)).len()
            == lists[l].len() by {
            assert(self.neighbor_names(i)[l] == self.names_of(self.adj(i, l)));
        }
        assert forall|l: int, k: int|
            0 <= l < self.levels(i) && 0 <= k < self.adj(i, l).len() implies 0 <= (
        #[trigger] self.adj(i, l)[k]) < h.nodes.len() && h.nodes[self.adj(i, l)[k] as int]
            == lists[l][k] by {
            assert(self.neighbor_names(i)[l] == self.names_of(self.adj(i, l)));
            assert(self.names_of(self.adj(i, l))[k] == self.name_of(self.adj(i, l)[k] as int));
            assert(self.node_ok(i));
            assert(self.list_ok(i, l));
            assert(self.edge_ok(i, l, self.adj(i, l)[k] as int));
            assert(self.is_live(self.adj(i, l)[k] as int));
            assert(self.node_restored(h, recs, self.adj(i, l)[k] as int));
        }
    }

    /// In an index that a snapshot stands for, a name stands at one place of
    /// the header only.
    pub(crate) proof fn lemma_witness_unique(
        &self,
        h: IndexRedisView,
        recs: Seq<Option<NodeRedisView>>,
        a: int,
        b: int,
    )
        requires
            self.wf(),
            self.restores(h, recs),
            0 <= a < h.nodes.len(),
            0 <= b < h.nodes.len(),
            h.nodes[a] == h.nodes[b],
        ensures
            a == b,
    {
        assert(self.node_restored(h, recs, a) && self.node_restored(h, recs, b));
    }

    /// Two indexes put together from one snapshot hold the same graph.
    pub(crate) proof fn lemma_built_agree(
        &self,
        other: &Index,
        h: IndexRedisView,
        recs: Seq<Option<NodeRedisView>>,
    )
        requires
            self.built_from(h, recs),
            other.built_from(h, recs),
        ensures
            self.same_graph(other),
            self.layers_restored(h) ==> other.layers_restored(h),
    {
        assert forall|i: int| 0 <= i < self.nodes@.len() implies {
            &&& (#[trigger] self.nodes@[i]).name@ == other.nodes@[i].name@
            &&& self.nodes@[i].data@ == other.nodes@[i].data@
            &&& self.nodes@[i].live == other.nodes@[i].live
            &&& self.nodes@[i].neighbors@.len() == other.nodes@[i].neighbors@.len()
            &&& (self.nodes@[i].live || self.nodes@[i].pins == other.nodes@[i].pins)
        } by {
            assert(node_built(self.nodes@[i], h, recs, i));
            assert(node_built(other.nodes@[i], h, recs, i));
        }
        assert forall|i: int, l: int|
            0 <= i < self.nodes@.len() && 0 <= l < self.levels(i) implies #[trigger] self.adj(i, l)
            == other.adj(i, l) by {
            assert(node_built(self.nodes@[i], h, recs, i));
            assert(node_built(other.nodes@[i], h, recs, i));
            let lists = recs[i]->Some_0.neighbors;
            let mine = self.nodes@[i].neighbors@[l]@;
            let theirs = other.nodes@[i].neighbors@[l]@;
            assert forall|k: int| 0 <= k < mine.len() implies mine[k] == theirs[k] by {
                assert(first_at(h.nodes, lists[l][k], self.nodes@[i].neighbors@[l]@[k] as int));
                assert(first_at(h.nodes, lists[l][k], other.nodes@[i].neighbors@[l]@[k] as int));
                let a = mine[k] as int;
                let b = theirs[k] as int;
                if a < b {
                    assert(h.nodes[a] != lists[l][k]);
                } else if b < a {
                    assert(h.nodes[b] != lists[l][k]);
                }
            }
            assert(mine =~= theirs);
        }
        match h.enterpoint {
            Some(text) => {
                let a = self.enterpoint->Some_0 as int;
                let b = other.enterpoint->Some_0 as int;
                if a < b {
                    assert(h.nodes[a] != text);
                } else if b < a {
                    assert(h.nodes[b] != text);
                }
            },
            None => {},
        }
        if self.layers_restored(h) {
            assert forall|l: int, t: int|
                0 <= l < h.layers.len() && 0 <= t < h.layers[l].len() implies other.names_layer(
                l,
                #[trigger] h.layers[l][t],
            ) by {
                assert(self.names_layer(l, h.layers[l][t]));
                let i = choose|i: int|
                    #[trigger] self.on_layer(i, l) && self.name_of(i) == h.layers[l][t];
                assert(other.on_layer(i, l) && other.name_of(i) == h.layers[l][t]);
            }
        }
    }

    /// In an index put together from a snapshot every name of the snapshot
    /// resolves.
    pub(crate) proof fn lemma_built_is_buildable(
        &self,
        h: IndexRedisView,
        recs: Seq<Option<NodeRedisView>>,
    )
        requires
            self.built_from(h, recs),
        ensures
            buildable(h, recs),
    {
        assert forall|j: int| 0 <= j < recs.len() implies (#[trigger] recs[j]) is Some
            && !has_dangling(h.nodes, recs[j]->Some_0.neighbors) by {
            assert(node_built(self.nodes@[j], h, recs, j));
            let lists = recs[j]->Some_0.neighbors;
            if has_dangling(h.nodes, lists) {
                let (l, k) = choose|l: int, k: int|
                    0 <= l < lists.len() && 0 <= k < lists[l].len() && #[trigger] absent(
                        h.nodes,
                        lists[l][k],
                    );
                let id = self.nodes@[j].neighbors@[l]@[k] as int;
                assert(first_at(h.nodes, lists[l][k], self.nodes@[j].neighbors@[l]@[k] as int));
                assert(h.nodes[id] == lists[l][k]);
            }
        }
        match h.enterpoint {
            Some(text) => {
                let e = self.enterpoint->Some_0 as int;
                assert(h.nodes[e] == text);
            },
            None => {},
        }
    }

    /// In an index put together from a snapshot, every slot holds the node
    /// that the header and its record describe.
    proof fn lemma_built_nodes(&self, h: IndexRedisView, recs: Seq<Option<NodeRedisView>>, i: int)
        requires
            self.built_from(h, recs),
            0 <= i < self.nodes@.len(),
        ensures
            self.is_live(i),
            self.name_of(i) == h.nodes[i],
            recs[i] is Some,
            self.vector_of(i) == recs[i]->Some_0.data,
            self.neighbor_names(i) == recs[i]->Some_0.neighbors,
    {
        assert(node_built(self.nodes@[i], h, recs, i));
        let lists = recs[i]->Some_0.neighbors;
        assert forall|l: int| 0 <= l < lists.len() implies self.neighbor_names(i)[l]
            == lists[l] by {
            let ids = self.adj(i, l);
            assert(ids == self.nodes@[i].neighbors@[l]@);
            assert forall|k: int| 0 <= k < lists[l].len() implies self.names_of(ids)[k]
                == lists[l][k] by {
                assert(first_at(h.nodes, lists[l][k], self.nodes@[i].neighbors@[l]@[k] as int));
                let j = ids[k] as int;
                assert(node_built(self.nodes@[j], h, recs, j));
            }
            assert(self.names_of(ids) =~= lists[l]);
        }
        assert(self.neighbor_names(i) =~= lists);
    }

    /// An index put together from a snapshot, of which everything holds that
    /// holds of an index, is what the snapshot stands for as soon as the
    /// layers of the header name nodes of their own.
    proof fn lemma_built_restores(&self, h: IndexRedisView, recs: Seq<Option<NodeRedisView>>)
        requires
            self.wf(),
            self.built_from(h, recs),
            self.layers_restored(h),
        ensures
            self.restores(h, recs),
    {
        assert forall|i: int| 0 <= i < self.nodes@.len() implies #[trigger] self.node_restored(
            h,
            recs,
            i,
        ) by {
            self.lemma_built_nodes(h, recs, i);
        }
        assert(self.nodes_restored(h, recs));
        match h.enterpoint {
            Some(text) => {
                let e = self.enterpoint->Some_0 as int;
                assert(node_built(self.nodes@[e], h, recs, e));
                assert(self.entry_name() == h.enterpoint);
            },
            None => {
                assert(self.entry_name() == h.enterpoint);
            },
        }
        assert(self.state_restored(h));
        assert(self.layers_restored(h));
    }
}

/// Whether every name of a snapshot resolves: every node of the header has
/// its record, and every neighbour that a record names, and the entry point,
/// is a node of the header.
pub open spec fn buildable(h: IndexRedisView, recs: Seq<Option<NodeRedisView>>) -> bool {
    &&& recs.len() == h.nodes.len()
    &&& forall|j: int|
        0 <= j < recs.len() ==> (#[trigger] recs[j]) is Some && !has_dangling(
            h.nodes,
            recs[j]->Some_0.neighbors,
        )
    &&& h.enterpoint is Some ==> !absent(h.nodes, h.enterpoint->Some_0)
}

/// Whether a header and the records of its nodes stand for an index: every
/// name resolves, everything holds of the index put together from them that
/// holds of an index between two operations, and the layers of the header
/// name nodes of their own.
pub open spec fn restorable(h: IndexRedisView, recs: Seq<Option<NodeRedisView>>) -> bool {
    &&& buildable(h, recs)
    &&& forall|c: Index| #[trigger] c.built_from(h, recs) ==> c.wf() && c.layers_restored(h)
}

/// Puts an index together from its header and the records of its nodes, in
/// the order in which the header names them; `None` stands for a node whose
/// record is missing. In a first pass every node comes in with its vector;
/// then the names of its neighbours, of the layers and of the entry point
/// are resolved through the names of the nodes.
///
/// The index comes back if and only if the snapshot stands for an index:
/// a missing record, a name that no node goes by, or a graph that breaks an
/// invariant makes the snapshot corrupt. The levels of nodes that come in
/// later are drawn from a generator that `seed` fixes.
pub fn make_index(ir: &IndexRedis, records: &Vec<Option<NodeRedis>>, seed: u64) -> (r: Result<
    Index,
    Error,
>)
    ensures
        r is Ok <==> restorable(ir@, records_of(records@)),
        r is Err ==> r->Err_0 == Error::CorruptSnapshot,
        r is Ok ==> r->Ok_0.wf() && r->Ok_0.restores(ir@, records_of(records@)),
        r is Ok ==> forall|i: int| 0 <= i < r->Ok_0.slots() ==> #[trigger] r->Ok_0.pins_of(i) == 0,
{
    let ghost h = ir@;
    let ghost recs = records_of(records@);
    let n = ir.nodes.len();
    if records.len() != n {
        return Err(Error::CorruptSnapshot);
    }
    let mut nodes: Vec<Node> = Vec::new();
    let mut i: usize = 0;
    while i < n
        invariant
            h == ir@,
            recs == records_of(records@),
            n == ir.nodes@.len(),
            records@.len() == n,
            i <= n,
            nodes@.len() == i,
            forall|j: int| 0 <= j < i ==> node_built(#[trigger] nodes@[j], h, recs, j),
        decreases n - i,
    {
        let rec = match &records[i] {
            Some(rec) => rec,
            None => {
                proof {
                    assert(recs[i as int] is None);
                }
                return Err(Error::CorruptSnapshot);
            },
        };
        let lists = match resolve_lists(&ir.nodes, &rec.neighbors) {
            Some(lists) => lists,
            None => {
                proof {
                    assert(recs[i as int] == Some(rec@));
                    assert(has_dangling(h.nodes, recs[i as int]->Some_0.neighbors));
                }
                return Err(Error::CorruptSnapshot);
            },
        };
        let node = Node {
            name: ir.nodes[i].clone(),
            data: copy_vector(&rec.data),
            neighbors: lists,
            live: true,
            pins: 0,
        };
        proof {
            assert(recs[i as int] == Some(rec@));
            assert(node_built(node, h, recs, i as int));
        }
        nodes.push(node);
        i = i + 1;
    }
    let enterpoint = match &ir.enterpoint {
        Some(name) => match position_of(&ir.nodes, name) {
            Some(e) => Some(e),
            None => {
                proof {
                    assert(absent(h.nodes, h.enterpoint->Some_0));
                }
                return Err(Error::CorruptSnapshot);
            },
        },
        None => None,
    };
    let kind = match MetricFuncs::from_tag(&ir.mfunc_kind) {
        Some(kind) => kind,
        None => MetricFuncs::Euclidean,
    };
    let index = Index {
        name: ir.name.clone(),
        mfunc_kind: kind,
        data_dim: ir.data_dim,
        m: ir.m,
        m_max: ir.m_max,
        m_max_0: ir.m_max_0,
        ef_construction: ir.ef_construction,
        level_mult: ir.level_mult,
        node_count: ir.node_count,
        max_layer: ir.max_layer,
        nodes,
        enterpoint,
        rng: seeded_rng(seed),
    };
    proof {
        assert(index.built_from(h, recs));
    }
    if !index.is_sound() {
        proof {
            assert(index.built_from(h, recs) && !index.wf());
        }
        return Err(Error::CorruptSnapshot);
    }
    let mut l: usize = 0;
    while l < ir.layers.len()
        invariant
            h == ir@,
            recs == records_of(records@),
            index.wf(),
            index.built_from(h, recs),
            l <= ir.layers@.len(),
            forall|a: int, t: int|
                0 <= a < l && 0 <= t < h.layers[a].len() ==> index.names_layer(
                    a,
                    #[trigger] h.layers[a][t],
                ),
        decreases ir.layers@.len() - l,
    {
        let mut t: usize = 0;
        while t < ir.layers[l].len()
            invariant
                h == ir@,
                recs == records_of(records@),
                index.wf(),
                index.built_from(h, recs),
                l < ir.layers@.len(),
                t <= ir.layers@[l as int]@.len(),
                forall|a: int, u: int|
                    0 <= a < l && 0 <= u < h.layers[a].len() ==> index.names_layer(
                        a,
                        #[trigger] h.layers[a][u],
                    ),
                forall|u: int|
                    0 <= u < t ==> index.names_layer(l as int, #[trigger] h.layers[l as int][u]),
            decreases ir.layers@[l as int]@.len() - t,
        {
            let name = &ir.layers[l][t];
            let ghost text = h.layers[l as int][t as int];
            proof {
                assert(name@ == text);
            }
            let fits = match index.find(name.as_str()) {
                Some(j) => l < index.nodes[j].neighbors.len(),
                None => false,
            };
            if !fits {
                proof {
                    if index.names_layer(l as int, text) {
                        let w = choose|w: int|
                            #[trigger] index.on_layer(w, l as int) && index.name_of(w) == text;
                        assert(index.is_live(w) && index.name_of(w) == text);
                        assert(index.has_name(text));
                        let j = index.find_spec(text);
                        assert(index.is_live(j) && index.name_of(j) == text);
                        assert(j == w);
                    }
                    assert(!index.names_layer(l as int, h.layers[l as int][t as int]));
                    assert(!index.layers_restored(h));
                    assert(index.built_from(h, recs));
                }
                return Err(Error::CorruptSnapshot);
            }
            proof {
                let j = index.find_spec(text);
                assert(index.on_layer(j, l as int));
            }
            t = t + 1;
        }
        l = l + 1;
    }
    proof {
        assert(index.layers_restored(h));
        index.lemma_built_restores(h, recs);
        assert forall|i: int| 0 <= i < index.slots() implies #[trigger] index.pins_of(i) == 0 by {
            assert(node_built(index.nodes@[i], h, recs, i));
        }
        index.lemma_built_is_buildable(h, recs);
        assert forall|c: Index| #[trigger] c.built_from(h, recs) implies c.wf()
            && c.layers_restored(h) by {
            index.lemma_built_agree(&c, h, recs);
            index.lemma_wf_same_graph(&c);
        }
    }
    Ok(index)
}

} // verus!
