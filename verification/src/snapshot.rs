use crate::index::Index;
use crate::insert::copy_vector;
use crate::kann::SearchResult;
use crate::records::IndexRedis;
use crate::records::IndexRedisView;
use crate::records::NodeRedis;
use crate::records::NodeRedisView;
use crate::store::texts_of;
use crate::store::texts_of_lists;
use vstd::prelude::*;
use vstd::string::*;

verus! {

/// One hit of a search as the host is answered: the similarity and the name.
#[derive(Debug, PartialEq, Clone, Default)]
pub struct SearchResultRedis {
    pub sim: i128,
    pub name: String,
}

impl SearchResultRedis {
    /// The hit as the host is answered.
    pub fn from(res: &SearchResult) -> (r: SearchResultRedis)
        ensures
            r.sim == res.sim,
            r.name@ == res.name@,
    {
        SearchResultRedis { sim: res.sim, name: res.name.clone() }
    }
}

impl Index {
    /// The names of the nodes of layer `l` among the first `n` slots, in the
    /// order of the slots.
    pub open(crate) spec fn names_on_upto(&self, l: int, n: nat) -> Seq<Seq<char>>
        decreases n,
    {
        if n == 0 {
            Seq::empty()
        } else if self.on_layer(n - 1, l) {
            self.names_on_upto(l, (n - 1) as nat).push(self.name_of(n - 1))
        } else {
            self.names_on_upto(l, (n - 1) as nat)
        }
    }

    /// The number of layers of the index: none while it is empty.
    pub open(crate) spec fn layer_count(&self) -> nat {
        if self.enterpoint is Some {
            (self.max_layer + 1) as nat
        } else {
            0
        }
    }

    /// The membership of every layer: the names of its nodes, in the order
    /// of the slots.
    pub open(crate) spec fn layer_names(&self) -> Seq<Seq<Seq<char>>> {
        Seq::new(self.layer_count(), |l: int| self.names_on_upto(l, self.nodes@.len()))
    }

    /// The names of all nodes, in the order of the slots.
    pub open(crate) spec fn node_names(&self) -> Seq<Seq<char>> {
        self.names_on_upto(0, self.nodes@.len())
    }

    /// The name of the entry point.
    pub open(crate) spec fn entry_name(&self) -> Option<Seq<char>> {
        match self.enterpoint {
            Some(e) => Some(self.name_of(e as int)),
            None => None,
        }
    }

    /// The header that stands for this index.
    pub open(crate) spec fn header(&self) -> IndexRedisView {
        IndexRedisView {
            name: self.name@,
            mfunc_kind: self.mfunc_kind.tag_of(),
            data_dim: self.data_dim,
            m: self.m,
            m_max: self.m_max,
            m_max_0: self.m_max_0,
            ef_construction: self.ef_construction,
            level_mult: self.level_mult,
            node_count: self.node_count,
            max_layer: self.max_layer,
            layers: self.layer_names(),
            nodes: self.node_names(),
            enterpoint: self.entry_name(),
        }
    }

    /// The record that stands for the node in slot `i`.
    pub open(crate) spec fn record_of(&self, i: int) -> NodeRedisView {
        NodeRedisView { data: self.vector_of(i), neighbors: self.neighbor_names(i) }
    }

    /// The names of the nodes of layer `l`, in the order of the slots.
    pub(crate) fn names_on(&self, l: usize) -> (r: Vec<String>)
        ensures
            texts_of(r@) == self.names_on_upto(l as int, self.nodes@.len()),
    {
        let mut out: Vec<String> = Vec::new();
        let mut i: usize = 0;
        proof {
            assert(texts_of(out@) =~= self.names_on_upto(l as int, 0));
        }
        while i < self.nodes.len()
            invariant
                i <= self.nodes@.len(),
                texts_of(out@) == self.names_on_upto(l as int, i as nat),
            decreases self.nodes@.len() - i,
        {
            let ghost before = texts_of(out@);
            if self.nodes[i].live && l < self.nodes[i].neighbors.len() {
                out.push(self.nodes[i].name.clone());
                proof {
                    assert(texts_of(out@) =~= before.push(self.name_of(i as int)));
                }
            }
            i = i + 1;
        }
        out
    }

    /// A node of a layer is named in the membership of that layer.
    pub(crate) proof fn lemma_names_on_hold(&self, l: int, n: nat, i: int)
        requires
            0 <= i < n,
            self.on_layer(i, l),
        ensures
            self.names_on_upto(l, n).contains(self.name_of(i)),
        decreases n,
    {
        let s = self.names_on_upto(l, n);
        if i == n - 1 {
            assert(s[s.len() - 1] == self.name_of(i));
        } else {
            self.lemma_names_on_hold(l, (n - 1) as nat, i);
            let r = self.names_on_upto(l, (n - 1) as nat);
            let k = choose|k: int| 0 <= k < r.len() && r[k] == self.name_of(i);
            assert(s[k] == self.name_of(i));
        }
    }

    /// A name in the membership of a layer is the name of a node of that
    /// layer.
    pub(crate) proof fn lemma_names_on_members(&self, l: int, n: nat, t: int) -> (i: int)
        requires
            0 <= t < self.names_on_upto(l, n).len(),
        ensures
            0 <= i < n,
            self.on_layer(i, l),
            self.name_of(i) == self.names_on_upto(l, n)[t],
        decreases n,
    {
        let s = self.names_on_upto(l, n);
        if self.on_layer(n - 1, l) && t == s.len() - 1 {
            n - 1
        } else {
            self.lemma_names_on_members(l, (n - 1) as nat, t)
        }
    }
}

/// Every node is named in the membership of every layer from 0 up to its top
/// layer, and a layer names nodes of its own only.
pub proof fn law_layers_hold_members(idx: &Index, i: int, l: int)
    requires
        idx.wf(),
        idx.on_layer(i, l),
    ensures
        l < idx.header().layers.len(),
        idx.header().layers[l].contains(idx.name_of(i)),
        idx.header().nodes.contains(idx.name_of(i)),
{
    assert(idx.node_ok(i));
    idx.lemma_entry_iff_nonempty();
    crate::index::lemma_live_upto_bounds(idx.nodes@, idx.nodes@.len());
    assert(idx.nodes@[i].live);
    idx.lemma_names_on_hold(l, idx.nodes@.len(), i);
    idx.lemma_names_on_hold(0, idx.nodes@.len(), i);
}

impl IndexRedis {
    /// The header that stands for an index: its parameters and state, the
    /// names of the nodes of each layer and of all nodes in the order of
    /// their slots, and the name of the entry point.
    pub fn from_index(index: &Index) -> (r: IndexRedis)
        requires
            index.wf(),
        ensures
            r@ == index.header(),
    {
        let mut layers: Vec<Vec<String>> = Vec::new();
        let enterpoint = match index.enterpoint {
            Some(e) => {
                let count = index.nodes[e].neighbors.len();
                let mut l: usize = 0;
                proof {
                    assert(texts_of_lists(layers@) =~= Seq::new(
                        0,
                        |k: int| index.names_on_upto(k, index.nodes@.len()),
                    ));
                }
                while l < count
                    invariant
                        l <= count,
                        texts_of_lists(layers@) == Seq::new(
                            l as nat,
                            |k: int| index.names_on_upto(k, index.nodes@.len()),
                        ),
                    decreases count - l,
                {
                    let ghost before = texts_of_lists(layers@);
                    let names = index.names_on(l);
                    layers.push(names);
                    proof {
                        assert(texts_of_lists(layers@) =~= before.push(texts_of(names@)));
                        assert(texts_of_lists(layers@) =~= Seq::new(
                            (l + 1) as nat,
                            |k: int| index.names_on_upto(k, index.nodes@.len()),
                        ));
                    }
                    l = l + 1;
                }
                Some(index.nodes[e].name.clone())
            },
            None => {
                proof {
                    assert(texts_of_lists(layers@) =~= index.layer_names());
                }
                None
            },
        };
        let r = IndexRedis {
            name: index.name.clone(),
            mfunc_kind: index.mfunc_kind.tag(),
            data_dim: index.data_dim,
            m: index.m,
            m_max: index.m_max,
            m_max_0: index.m_max_0,
            ef_construction: index.ef_construction,
            level_mult: index.level_mult,
            node_count: index.node_count,
            max_layer: index.max_layer,
            layers,
            nodes: index.names_on(0),
            enterpoint,
        };
        proof {
            assert(r@.layers == index.header().layers);
            assert(r@.enterpoint == index.header().enterpoint);
        }
        r
    }
}

impl NodeRedis {
    /// The record that stands for the node that goes by `name`: its vector
    /// and the names of its neighbours, layer by layer.
    pub fn from_node(index: &Index, name: &str) -> (r: Option<NodeRedis>)
        requires
            index.wf(),
        ensures
            r is Some <==> index.has_name(name@),
            r is Some ==> r->Some_0@ == index.record_of(index.slot_of(name@)),
    {
        match index.find(name) {
            Some(x) => {
                proof {
                    let y = index.slot_of(name@);
                    assert(index.is_live(y) && index.name_of(y) == name@);
                    assert(index.is_live(x as int));
                }
                Some(
                    NodeRedis {
                        data: copy_vector(&index.nodes[x].data),
                        neighbors: index.neighbors_of_slot(x),
                    },
                )
            },
            None => None,
        }
    }
}

} // verus!
