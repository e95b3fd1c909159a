use crate::error::Error;
use crate::index::lemma_live_upto_same;
use crate::index::Index;
use crate::insert::copy_vector;
use vstd::prelude::*;

verus! {

/// The texts of a list of strings.
pub open spec fn texts_of(v: Seq<String>) -> Seq<Seq<char>> {
    Seq::new(v.len(), |t: int| v[t]@)
}

/// The texts of a list of lists of strings.
pub open spec fn texts_of_lists(v: Seq<Vec<String>>) -> Seq<Seq<Seq<char>>> {
    Seq::new(v.len(), |t: int| texts_of(v[t]@))
}

impl Index {
    /// Whether `other` holds the same graph as this index, the readers of
    /// its live nodes and the state of its generator aside.
    pub open(crate) spec fn same_graph(&self, other: &Index) -> bool {
        &&& self.name@ == other.name@
        &&& self.mfunc_kind == other.mfunc_kind
        &&& self.data_dim == other.data_dim
        &&& self.m == other.m
        &&& self.m_max == other.m_max
        &&& self.m_max_0 == other.m_max_0
        &&& self.ef_construction == other.ef_construction
        &&& self.level_mult == other.level_mult
        &&& self.node_count == other.node_count
        &&& self.max_layer == other.max_layer
        &&& self.enterpoint == other.enterpoint
        &&& self.nodes@.len() == other.nodes@.len()
        &&& forall|i: int|
            0 <= i < self.nodes@.len() ==> {
                &&& (#[trigger] self.nodes@[i]).name@ == other.nodes@[i].name@
                &&& self.nodes@[i].data@ == other.nodes@[i].data@
                &&& self.nodes@[i].live == other.nodes@[i].live
                &&& self.nodes@[i].neighbors@.len() == other.nodes@[i].neighbors@.len()
                &&& (self.nodes@[i].live || self.nodes@[i].pins == other.nodes@[i].pins)
            }
        &&& forall|i: int, l: int|
            0 <= i < self.nodes@.len() && 0 <= l < self.levels(i) ==> #[trigger] self.adj(i, l)
                == other.adj(i, l)
    }

    /// What holds of an index between two operations reads neither the
    /// readers of a live node nor the generator.
    pub(crate) proof fn lemma_wf_same_graph(&self, other: &Index)
        requires
            self.same_graph(other),
            self.wf(),
        ensures
            other.wf(),
    {
        assert forall|i: int| 0 <= i < other.nodes@.len() implies #[trigger] other.node_ok(i) by {
            assert(self.node_ok(i));
            if other.nodes@[i].live {
                assert forall|l: int| 0 <= l < other.levels(i) implies #[trigger] other.list_ok(
                    i,
                    l,
                ) by {
                    assert(self.list_ok(i, l));
                    assert(self.adj(i, l) == other.adj(i, l));
                    assert forall|k: int| 0 <= k < other.adj(i, l).len() implies other.edge_ok(
                        i,
                        l,
                        #[trigger] other.adj(i, l)[k] as int,
                    ) by {
                        let j = self.adj(i, l)[k] as int;
                        assert(self.edge_ok(i, l, j));
                        assert(self.adj(j, l) == other.adj(j, l));
                    }
                }
            }
        }
        assert forall|i: int, l: int| #[trigger] other.on_layer(i, l) implies other.adj(
            i,
            l,
        ).len() <= other.cap(l) by {
            assert(self.on_layer(i, l));
            assert(self.adj(i, l) == other.adj(i, l));
        }
        assert forall|i: int, j: int|
            #[trigger] other.is_live(i) && #[trigger] other.is_live(j) && i != j implies other.name_of(
            i,
        ) != other.name_of(j) by {
            assert(self.is_live(i) && self.is_live(j));
        }
        assert forall|i: int| other.is_live(i) == self.is_live(i) by {}
        lemma_live_upto_same(self.nodes@, other.nodes@, self.nodes@.len());
        match self.enterpoint {
            Some(e) => {
                assert(self.is_live(e as int));
            },
            None => {},
        }
    }

    /// Whether this index is `old` but for the readers of the node in slot
    /// `x`, of which there are now `pins`.
    pub open(crate) spec fn repinned(&self, old: &Index, x: int, pins: int) -> bool {
        &&& self.same_graph(old)
        &&& self.rng == old.rng
        &&& self.pins_of(x) == pins
        &&& forall|i: int|
            0 <= i < self.nodes@.len() && i != x ==> (#[trigger] self.nodes@[i]).pins
                == old.nodes@[i].pins
    }

    /// Takes a shared handle to a node: while one is out, the node cannot be
    /// deleted. The count of handles stops at the largest number.
    pub fn pin(&mut self, name: &str) -> (r: Result<(), Error>)
        requires
            old(self).wf(),
        ensures
            final(self).wf(),
            r is Err <==> !old(self).has_name(name@),
            r is Err ==> r->Err_0 == Error::NotFound && *final(self) == *old(self),
            r is Ok ==> final(self).repinned(
                old(self),
                old(self).slot_of(name@),
                if old(self).pins_of(old(self).slot_of(name@)) < usize::MAX {
                    old(self).pins_of(old(self).slot_of(name@)) + 1
                } else {
                    usize::MAX as int
                },
            ),
    {
        let x = match self.find(name) {
            Some(x) => x,
            None => {
                return Err(Error::NotFound);
            },
        };
        proof {
            let y = self.slot_of(name@);
            assert(self.is_live(y) && self.name_of(y) == name@);
            assert(self.is_live(x as int));
        }
        if self.nodes[x].pins < usize::MAX {
            self.nodes[x].pins = self.nodes[x].pins + 1;
        }
        proof {
            old(self).lemma_wf_same_graph(self);
        }
        Ok(())
    }

    /// Gives a shared handle to a node back. A node without handles stays
    /// without.
    pub fn unpin(&mut self, name: &str) -> (r: Result<(), Error>)
        requires
            old(self).wf(),
        ensures
            final(self).wf(),
            r is Err <==> !old(self).has_name(name@),
            r is Err ==> r->Err_0 == Error::NotFound && *final(self) == *old(self),
            r is Ok ==> final(self).repinned(
                old(self),
                old(self).slot_of(name@),
                if old(self).pins_of(old(self).slot_of(name@)) > 0 {
                    old(self).pins_of(old(self).slot_of(name@)) - 1
                } else {
                    0
                },
            ),
    {
        let x = match self.find(name) {
            Some(x) => x,
            None => {
                return Err(Error::NotFound);
            },
        };
        proof {
            let y = self.slot_of(name@);
            assert(self.is_live(y) && self.name_of(y) == name@);
            assert(self.is_live(x as int));
        }
        if self.nodes[x].pins > 0 {
            self.nodes[x].pins = self.nodes[x].pins - 1;
        }
        proof {
            old(self).lemma_wf_same_graph(self);
        }
        Ok(())
    }

    /// The vector of the node that goes by `name`.
    pub fn vector(&self, name: &str) -> (r: Option<Vec<i32>>)
        requires
            self.wf(),
        ensures
            r is Some <==> self.has_name(name@),
            r is Some ==> r->Some_0@ == self.vector_of(self.slot_of(name@)),
    {
        match self.find(name) {
            Some(x) => {
                proof {
                    let y = self.slot_of(name@);
                    assert(self.is_live(y) && self.name_of(y) == name@);
                    assert(self.is_live(x as int));
                }
                Some(copy_vector(&self.nodes[x].data))
            },
            None => None,
        }
    }

    /// The top layer of the node that goes by `name`.
    pub fn top_layer(&self, name: &str) -> (r: Option<usize>)
        requires
            self.wf(),
        ensures
            r is Some <==> self.has_name(name@),
            r is Some ==> r->Some_0 + 1 == self.levels(self.slot_of(name@)),
    {
        match self.find(name) {
            Some(x) => {
                proof {
                    let y = self.slot_of(name@);
                    assert(self.is_live(y) && self.name_of(y) == name@);
                    assert(self.is_live(x as int));
                    assert(self.node_ok(x as int));
                }
                Some(self.nodes[x].neighbors.len() - 1)
            },
            None => None,
        }
    }

    /// The names that the slots of a list stand for.
    pub open(crate) spec fn names_of(&self, ids: Seq<usize>) -> Seq<Seq<char>> {
        Seq::new(ids.len(), |t: int| self.name_of(ids[t] as int))
    }

    /// The names of the neighbours of the node in slot `i`, layer by layer.
    pub open(crate) spec fn neighbor_names(&self, i: int) -> Seq<Seq<Seq<char>>> {
        Seq::new(self.levels(i) as nat, |l: int| self.names_of(self.adj(i, l)))
    }

    /// The names of the neighbours of the node in slot `x`, layer by layer.
    pub(crate) fn neighbors_of_slot(&self, x: usize) -> (r: Vec<Vec<String>>)
        requires
            self.wf(),
            self.is_live(x as int),
        ensures
            texts_of_lists(r@) == self.neighbor_names(x as int),
    {
        let mut out: Vec<Vec<String>> = Vec::new();
        let mut l: usize = 0;
        proof {
            assert(self.node_ok(x as int));
        }
        while l < self.nodes[x].neighbors.len()
            invariant
                self.wf(),
                self.is_live(x as int),
                l <= self.levels(x as int),
                out@.len() == l,
                forall|k: int|
                    0 <= k < l ==> texts_of((#[trigger] out@[k])@) == self.names_of(
                        self.adj(x as int, k),
                    ),
            decreases self.levels(x as int) - l,
        {
            let mut layer: Vec<String> = Vec::new();
            let mut t: usize = 0;
            proof {
                assert(self.node_ok(x as int));
                assert(self.list_ok(x as int, l as int));
            }
            while t < self.nodes[x].neighbors[l].len()
                invariant
                    self.wf(),
                    self.on_layer(x as int, l as int),
                    self.list_ok(x as int, l as int),
                    t <= self.adj(x as int, l as int).len(),
                    layer@.len() == t,
                    forall|u: int|
                        0 <= u < t ==> (#[trigger] layer@[u])@ == self.name_of(
                            self.adj(x as int, l as int)[u] as int,
                        ),
                decreases self.adj(x as int, l as int).len() - t,
            {
                let j = self.nodes[x].neighbors[l][t];
                proof {
                    assert(self.edge_ok(
                        x as int,
                        l as int,
                        self.adj(x as int, l as int)[t as int] as int,
                    ));
                }
                layer.push(self.nodes[j].name.clone());
                t = t + 1;
            }
            proof {
                assert(texts_of(layer@) =~= self.names_of(self.adj(x as int, l as int)));
            }
            out.push(layer);
            l = l + 1;
        }
        proof {
            assert(texts_of_lists(out@) =~= self.neighbor_names(x as int));
        }
        out
    }

    /// The names of the neighbours of the node that goes by `name`, layer by
    /// layer.
    pub fn neighbors(&self, name: &str) -> (r: Option<Vec<Vec<String>>>)
        requires
            self.wf(),
        ensures
            r is Some <==> self.has_name(name@),
            r is Some ==> texts_of_lists(r->Some_0@) == self.neighbor_names(self.slot_of(name@)),
    {
        match self.find(name) {
            Some(x) => {
                proof {
                    let y = self.slot_of(name@);
                    assert(self.is_live(y) && self.name_of(y) == name@);
                    assert(self.is_live(x as int));
                }
                Some(self.neighbors_of_slot(x))
            },
            None => None,
        }
    }
}

} // verus!
