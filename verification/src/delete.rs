use crate::error::Error;
use crate::index::lemma_live_upto_bounds;
use crate::index::lemma_live_upto_flip;
use crate::index::Index;
use crate::index::Node;
use crate::model::emptied_list;
use crate::model::isolated_lists;
use crate::model::lists_without;
use crate::insert::distinct_texts;
use crate::insert::has_text;
use crate::search::no_marks;
use vstd::prelude::*;

verus! {

impl Index {
    /// Parts the node in slot `x` from all its neighbours, on every layer.
    fn isolate(&mut self, x: usize, marks: &mut Vec<bool>)
        requires
            old(self).wf(),
            old(self).is_live(x as int),
            old(marks)@.len() == old(self).nodes@.len(),
            forall|i: int| 0 <= i < old(marks)@.len() ==> !old(marks)@[i],
        ensures
            final(self).wf(),
            final(self).shrunk_from(old(self)),
            forall|l: int|
                0 <= l < final(self).levels(x as int) ==> (#[trigger] final(self).adj(
                    x as int,
                    l,
                )).len() == 0,
            forall|i: int, l: int, y: usize|
                0 <= i < final(self).nodes@.len() && i != x && 0 <= l < final(self).levels(i)
                    ==> (#[trigger] final(self).adj(i, l).contains(y) <==> old(self).adj(
                    i,
                    l,
                ).contains(y) && y != x),
            final(marks)@.len() == old(marks)@.len(),
            !final(marks)@[x as int],
            forall|i: int|
                0 <= i < final(marks)@.len() && i != x && !#[trigger] final(marks)@[i]
                    ==> final(self).lists_same(old(self), i),
            forall|i: int|
                0 <= i < final(marks)@.len() && #[trigger] final(marks)@[i]
                    ==> final(self).is_live(i),
            final(self).lists() == isolated_lists(
                old(self).lists(),
                x as int,
                0,
                old(self).levels(x as int),
            ),
    {
        let levels = self.nodes[x].neighbors.len();
        let mut l: usize = 0;
        let ghost whole = isolated_lists(self.lists(), x as int, 0, levels as int);
        while l < levels
            invariant
                self.wf(),
                self.is_live(x as int),
                self.shrunk_from(old(self)),
                whole == isolated_lists(self.lists(), x as int, l as int, levels as int),
                levels == self.levels(x as int),
                l <= levels,
                forall|k: int| 0 <= k < l ==> (#[trigger] self.adj(x as int, k)).len() == 0,
                forall|i: int, k: int, y: usize|
                    0 <= i < self.nodes@.len() && i != x && 0 <= k < self.levels(i) && y != x
                        && #[trigger] old(self).adj(i, k).contains(y) ==> self.adj(i, k).contains(y),
                marks@.len() == old(marks)@.len(),
                marks@.len() == self.nodes@.len(),
                !marks@[x as int],
                forall|i: int|
                    0 <= i < marks@.len() && i != x && !#[trigger] marks@[i] ==> self.lists_same(
                        old(self),
                        i,
                    ),
                forall|i: int| 0 <= i < marks@.len() && #[trigger] marks@[i] ==> self.is_live(i),
            decreases levels - l,
        {
            let ghost layer_start = self.lists();
            let ghost mut left: nat = self.adj(x as int, l as int).len();
            proof {
                assert(layer_start[x as int][l as int] == self.adj(x as int, l as int));
            }
            while self.nodes[x].neighbors[l].len() > 0
                invariant
                    self.wf(),
                    self.is_live(x as int),
                    self.shrunk_from(old(self)),
                    left >= self.adj(x as int, l as int).len(),
                    emptied_list(
                        layer_start,
                        x as int,
                        l as int,
                        layer_start[x as int][l as int].len(),
                    ) == emptied_list(self.lists(), x as int, l as int, left),
                    levels == self.levels(x as int),
                    l < levels,
                    forall|k: int| 0 <= k < l ==> (#[trigger] self.adj(x as int, k)).len() == 0,
                    forall|i: int, k: int, y: usize|
                        0 <= i < self.nodes@.len() && i != x && 0 <= k < self.levels(i) && y != x
                            && #[trigger] old(self).adj(i, k).contains(y) ==> self.adj(i, k).contains(
                            y,
                        ),
                    marks@.len() == old(marks)@.len(),
                    marks@.len() == self.nodes@.len(),
                    !marks@[x as int],
                    forall|i: int|
                        0 <= i < marks@.len() && i != x && !#[trigger] marks@[i]
                            ==> self.lists_same(old(self), i),
                    forall|i: int| 0 <= i < marks@.len() && #[trigger] marks@[i] ==> self.is_live(i),
                decreases self.adj(x as int, l as int).len(),
            {
                let last = self.nodes[x].neighbors[l].len() - 1;
                let n = self.nodes[x].neighbors[l][last];
                let ghost before = *self;
                let ghost marks0 = marks@;
                proof {
                    assert(self.node_ok(x as int));
                    assert(self.list_ok(x as int, l as int));
                    assert(self.edge_ok(
                        x as int,
                        l as int,
                        self.adj(x as int, l as int)[last as int] as int,
                    ));
                    assert(self.adj(x as int, l as int).contains(n));
                }
                proof {
                    assert(self.lists()[x as int][l as int] == self.adj(x as int, l as int));
                    assert(left >= 1);
                }
                self.unlink(x, n, l);
                marks.set(n, true);
                proof {
                    left = (left - 1) as nat;
                }
                proof {
                    let o = old(self);
                    assert forall|i: int, k: int|
                        0 <= i < self.nodes@.len() && 0 <= k < self.levels(i) implies (
                    #[trigger] self.adj(i, k)).len() <= o.adj(i, k).len() by {
                        assert(before.adj(i, k).len() <= o.adj(i, k).len());
                    }
                    assert forall|i: int, k: int, y: usize|
                        0 <= i < self.nodes@.len() && 0 <= k < self.levels(i)
                            && #[trigger] self.adj(i, k).contains(y) implies o.adj(i, k).contains(
                        y,
                    ) by {
                        assert(before.adj(i, k).contains(y));
                    }
                    assert forall|k: int| 0 <= k < l implies (#[trigger] self.adj(x as int, k)).len()
                        == 0 by {
                        assert(before.adj(x as int, k).len() == 0);
                    }
                    assert forall|i: int, k: int, y: usize|
                        0 <= i < self.nodes@.len() && i != x && 0 <= k < self.levels(i) && y != x
                            && #[trigger] o.adj(i, k).contains(y) implies self.adj(i, k).contains(
                        y,
                    ) by {
                        assert(before.adj(i, k).contains(y));
                        if i == n && k == l {
                        } else {
                            assert(self.adj(i, k) == before.adj(i, k));
                        }
                    }
                    assert forall|i: int|
                        0 <= i < marks@.len() && i != x && !#[trigger] marks@[i] implies self.lists_same(
                        o,
                        i,
                    ) by {
                        assert(!marks0[i]);
                        assert(before.lists_same(o, i));
                        assert forall|k: int| 0 <= k < self.levels(i) implies #[trigger] self.adj(
                            i,
                            k,
                        ) == o.adj(i, k) by {
                            assert(before.adj(i, k) == o.adj(i, k));
                        }
                    }
                    assert forall|i: int| 0 <= i < marks@.len() && #[trigger] marks@[i] implies self.is_live(
                        i,
                    ) by {
                        if i != n {
                            assert(marks0[i]);
                        }
                    }
                    assert forall|i: int, k: int| #[trigger] self.on_layer(i, k) implies self.adj(
                        i,
                        k,
                    ).len() <= self.cap(k) by {
                        assert(before.on_layer(i, k));
                    }
                }
            }
            proof {
                assert(self.lists()[x as int][l as int] == self.adj(x as int, l as int));
                assert(self.lists()[x as int][l as int].len() == 0);
            }
            l = l + 1;
        }
        proof {
            assert forall|i: int, k: int, y: usize|
                0 <= i < self.nodes@.len() && i != x && 0 <= k < self.levels(i) implies (
            #[trigger] self.adj(i, k).contains(y) <==> old(self).adj(i, k).contains(y) && y != x) by {
                if self.adj(i, k).contains(y) {
                    assert(old(self).adj(i, k).contains(y));
                    if y == x {
                        assert(self.nodes@[i].live) by {
                            assert(self.node_ok(i));
                        }
                        assert(self.node_ok(i));
                        assert(self.list_ok(i, k));
                        let t = choose|t: int|
                            0 <= t < self.adj(i, k).len() && self.adj(i, k)[t] == y;
                        assert(self.edge_ok(i, k, self.adj(i, k)[t] as int));
                        assert(self.adj(x as int, k).len() == 0);
                    }
                }
                if old(self).adj(i, k).contains(y) && y != x {
                    assert(self.adj(i, k).contains(y));
                }
            }
        }
    }
}


impl Index {
    /// What a deletion leaves behind. The node that went by `name` has left
    /// its slot empty; every other node keeps its name, its vector, its
    /// layers and its readers, and lists the neighbours that it listed but
    /// for the node that left. If that node was the entry point, the new
    /// entry point is the first node in slot order among those that stand
    /// highest, and none if the index is empty. `touched` names each node
    /// once whose lists changed, in the order of the slots.
    pub open(crate) spec fn deleted(&self, old: &Index, name: Seq<char>, touched: Seq<String>) -> bool {
        let x = old.slot_of(name);
        &&& self.nodes@.len() == old.nodes@.len()
        &&& self.name == old.name
        &&& self.mfunc_kind == old.mfunc_kind
        &&& self.data_dim == old.data_dim
        &&& self.m == old.m
        &&& self.m_max == old.m_max
        &&& self.m_max_0 == old.m_max_0
        &&& self.ef_construction == old.ef_construction
        &&& self.level_mult == old.level_mult
        &&& self.rng == old.rng
        &&& self.node_count == old.node_count - 1
        &&& !self.is_live(x)
        &&& forall|i: int|
            0 <= i < self.nodes@.len() && i != x ==> {
                &&& (#[trigger] self.nodes@[i]).name == old.nodes@[i].name
                &&& self.nodes@[i].data == old.nodes@[i].data
                &&& self.nodes@[i].live == old.nodes@[i].live
                &&& self.nodes@[i].pins == old.nodes@[i].pins
                &&& self.nodes@[i].neighbors@.len() == old.nodes@[i].neighbors@.len()
            }
        &&& forall|i: int, l: int, y: usize|
            0 <= i < self.nodes@.len() && i != x && 0 <= l < self.levels(i) ==> (
            #[trigger] self.adj(i, l).contains(y) <==> old.adj(i, l).contains(y) && y != x)
        &&& if old.enterpoint == Some(x as usize) {
            match self.enterpoint {
                None => self.node_count == 0 && self.max_layer == 0,
                Some(e) => self.is_live(e as int) && forall|j: int|
                    0 <= j < e && #[trigger] self.is_live(j) ==> self.levels(j) < self.levels(
                        e as int,
                    ),
            }
        } else {
            self.enterpoint == old.enterpoint && self.max_layer == old.max_layer
        }
        &&& distinct_texts(touched)
        &&& self.in_slot_order(touched, touched.len() as int)
        &&& forall|t: int| 0 <= t < touched.len() ==> self.has_name((#[trigger] touched[t])@)
        &&& forall|i: int|
            0 <= i < self.nodes@.len() && i != x && old.is_live(i) && !#[trigger] self.lists_same(
                old,
                i,
            ) ==> has_text(touched, old.name_of(i))
        &&& self.lists() == lists_without(old.lists(), x)
    }

    /// Empties the slot of a node that has no neighbour and no reader, and
    /// finds a new entry point if the node was the entry point.
    fn retire(&mut self, x: usize)
        requires
            old(self).wf(),
            old(self).is_live(x as int),
            old(self).pins_of(x as int) == 0,
            forall|l: int|
                0 <= l < old(self).levels(x as int) ==> (#[trigger] old(self).adj(x as int, l)).len()
                    == 0,
        ensures
            final(self).wf(),
            final(self).nodes@.len() == old(self).nodes@.len(),
            final(self).name == old(self).name,
            final(self).mfunc_kind == old(self).mfunc_kind,
            final(self).data_dim == old(self).data_dim,
            final(self).m == old(self).m,
            final(self).m_max == old(self).m_max,
            final(self).m_max_0 == old(self).m_max_0,
            final(self).ef_construction == old(self).ef_construction,
            final(self).level_mult == old(self).level_mult,
            final(self).rng == old(self).rng,
            final(self).node_count == old(self).node_count - 1,
            !final(self).is_live(x as int),
            forall|i: int|
                0 <= i < final(self).nodes@.len() && i != x ==> #[trigger] final(self).nodes@[i]
                    == old(self).nodes@[i],
            final(self).lists() == old(self).lists().update(x as int, Seq::empty()),
            if old(self).enterpoint == Some(x) {
                match final(self).enterpoint {
                    None => final(self).node_count == 0 && final(self).max_layer == 0,
                    Some(e) => final(self).is_live(e as int) && forall|j: int|
                        0 <= j < e && #[trigger] final(self).is_live(j) ==> final(self).levels(j)
                            < final(self).levels(e as int),
                }
            } else {
                final(self).enterpoint == old(self).enterpoint && final(self).max_layer == old(
                    self,
                ).max_layer
            },
    {
        let was_entry = match self.enterpoint {
            Some(e) => e == x,
            None => false,
        };
        let dead = Node {
            name: String::new(),
            data: Vec::new(),
            neighbors: Vec::new(),
            live: false,
            pins: 0,
        };
        proof {
            lemma_live_upto_bounds(self.nodes@, self.nodes@.len());
            assert(self.nodes@[x as int].live);
        }
        self.nodes.set(x, dead);
        self.node_count = self.node_count - 1;
        let n = self.nodes.len();
        proof {
            let o = old(self);
            assert(self.lists() =~~= o.lists().update(x as int, Seq::empty()));
            lemma_live_upto_flip(o.nodes@, self.nodes@, o.nodes@.len(), x as int);
            assert forall|i: int| 0 <= i < self.nodes@.len() implies #[trigger] self.node_ok(
                i,
            ) by {
                assert(o.node_ok(i));
                if i != x && self.nodes@[i].live {
                    assert forall|l: int| 0 <= l < self.levels(i) implies #[trigger] self.list_ok(
                        i,
                        l,
                    ) by {
                        assert(o.list_ok(i, l));
                        assert forall|k: int| 0 <= k < self.adj(i, l).len() implies self.edge_ok(
                            i,
                            l,
                            #[trigger] self.adj(i, l)[k] as int,
                        ) by {
                            let j = self.adj(i, l)[k] as int;
                            assert(o.edge_ok(i, l, o.adj(i, l)[k] as int));
                            if j == x {
                                assert(o.adj(x as int, l).len() == 0);
                            }
                        }
                    }
                }
            }
            assert forall|i: int, l: int| #[trigger] self.on_layer(i, l) implies self.adj(
                i,
                l,
            ).len() <= self.cap(l) by {
                assert(o.on_layer(i, l));
            }
            assert forall|i: int, j: int|
                #[trigger] self.is_live(i) && #[trigger] self.is_live(j) && i != j implies self.name_of(
                i,
            ) != self.name_of(j) by {
                assert(o.is_live(i) && o.is_live(j));
            }
        }
        if was_entry {
            let ghost mid = *self;
            let mut best: Option<usize> = None;
            let mut height: usize = 0;
            let mut i: usize = 0;
            while i < n
                invariant
                    *self == mid,
                    n == self.nodes@.len(),
                    i <= n,
                    self.graph_ok(),
                    best is None ==> forall|j: int| 0 <= j < i ==> !#[trigger] self.is_live(j),
                    best is Some ==> {
                        let e = best->Some_0 as int;
                        &&& e < i
                        &&& self.is_live(e)
                        &&& self.levels(e) == height
                        &&& forall|j: int|
                            0 <= j < i && #[trigger] self.is_live(j) ==> self.levels(j) <= height
                        &&& forall|j: int|
                            0 <= j < e && #[trigger] self.is_live(j) ==> self.levels(j) < height
                    },
                decreases n - i,
            {
                if self.nodes[i].live {
                    let levels = self.nodes[i].neighbors.len();
                    if best.is_none() || levels > height {
                        best = Some(i);
                        height = levels;
                    }
                }
                i = i + 1;
            }
            match best {
                Some(e) => {
                    proof {
                        assert(self.node_ok(e as int));
                    }
                    self.enterpoint = Some(e);
                    self.max_layer = height - 1;
                },
                None => {
                    self.enterpoint = None;
                    self.max_layer = 0;
                },
            }
            proof {
                assert forall|i: int| 0 <= i < self.nodes@.len() implies #[trigger] self.node_ok(
                    i,
                ) by {
                    assert(mid.node_ok(i));
                    if self.nodes@[i].live {
                        assert(mid.is_live(i));
                        assert forall|l: int| 0 <= l < self.levels(i) implies #[trigger] self.list_ok(
                            i,
                            l,
                        ) by {
                            assert(mid.list_ok(i, l));
                            assert forall|k: int|
                                0 <= k < self.adj(i, l).len() implies self.edge_ok(
                                i,
                                l,
                                #[trigger] self.adj(i, l)[k] as int,
                            ) by {
                                assert(mid.edge_ok(i, l, mid.adj(i, l)[k] as int));
                            }
                        }
                    }
                }
                assert forall|i: int, l: int| #[trigger] self.on_layer(i, l) implies self.adj(
                    i,
                    l,
                ).len() <= self.cap(l) by {
                    assert(mid.on_layer(i, l));
                }
                assert forall|i: int, j: int|
                    #[trigger] self.is_live(i) && #[trigger] self.is_live(j) && i != j implies self.name_of(
                    i,
                ) != self.name_of(j) by {
                    assert(mid.is_live(i) && mid.is_live(j));
                }
                if best is None {
                    assert forall|i: int| !#[trigger] self.is_live(i) by {
                        if 0 <= i < n {
                            assert(!mid.is_live(i));
                        }
                    }
                    lemma_live_upto_bounds(self.nodes@, self.nodes@.len());
                    assert forall|i: int| 0 <= i < n implies !(#[trigger] self.nodes@[i]).live by {
                        assert(!self.is_live(i));
                    }
                } else {
                    let e = best->Some_0 as int;
                    assert forall|j: int| 0 <= j < e && #[trigger] self.is_live(j) implies self.levels(
                        j,
                    ) < self.levels(e) by {
                        assert(mid.is_live(j));
                    }
                }
            }
        }
    }

    /// Takes a node out of the index, and answers with the names of the
    /// nodes to write back: each neighbour that the node has parted with,
    /// once.
    ///
    /// A name that no node goes by is not found; a node that a reader holds
    /// is in use. The index is then as it was.
    pub fn delete_node(&mut self, name: &str) -> (r: Result<Vec<String>, Error>)
        requires
            old(self).wf(),
        ensures
            final(self).wf(),
            r == Err::<Vec<String>, Error>(Error::NotFound) <==> !old(self).has_name(name@),
            r == Err::<Vec<String>, Error>(Error::InUse) <==> (old(self).has_name(name@) && old(
                self,
            ).pins_of(old(self).slot_of(name@)) > 0),
            r is Err ==> r->Err_0 == Error::NotFound || r->Err_0 == Error::InUse,
            r is Err ==> *final(self) == *old(self),
            r is Ok ==> final(self).deleted(old(self), name@, r->Ok_0@),
    {
        let x = match self.find(name) {
            Some(x) => x,
            None => {
                return Err(Error::NotFound);
            },
        };
        proof {
            let y = self.slot_of(name@);
            assert(self.is_live(y) && self.name_of(y) == name@);
            assert(self.is_live(x as int));
            assert(y == x);
        }
        if self.nodes[x].pins > 0 {
            return Err(Error::InUse);
        }
        let mut marks = no_marks(self.nodes.len());
        proof {
            assert(self.lists()[x as int].len() == self.levels(x as int));
        }
        self.isolate(x, &mut marks);
        let ghost mid = *self;
        self.retire(x);
        let touched = self.marked_names(&marks, self.nodes.len());
        proof {
            let o = old(self);
            assert forall|i: int| 0 <= i < self.nodes@.len() && i != x implies {
                &&& (#[trigger] self.nodes@[i]).name == o.nodes@[i].name
                &&& self.nodes@[i].data == o.nodes@[i].data
                &&& self.nodes@[i].live == o.nodes@[i].live
                &&& self.nodes@[i].pins == o.nodes@[i].pins
                &&& self.nodes@[i].neighbors@.len() == o.nodes@[i].neighbors@.len()
            } by {
                assert(self.nodes@[i] == mid.nodes@[i]);
            }
            assert forall|i: int, l: int, y: usize|
                0 <= i < self.nodes@.len() && i != x && 0 <= l < self.levels(i) implies (
            #[trigger] self.adj(i, l).contains(y) <==> o.adj(i, l).contains(y) && y != x) by {
                assert(self.nodes@[i] == mid.nodes@[i]);
                assert(mid.adj(i, l).contains(y) <==> o.adj(i, l).contains(y) && y != x);
            }
            assert forall|t: int| 0 <= t < touched@.len() implies self.has_name(
                (#[trigger] touched@[t])@,
            ) by {
                assert(self.marked_name(marks@, self.nodes@.len() as int, touched@[t]@));
            }
            assert forall|i: int|
                0 <= i < self.nodes@.len() && i != x && o.is_live(i) && !#[trigger] self.lists_same(
                    o,
                    i,
                ) implies has_text(touched@, o.name_of(i)) by {
                assert(self.nodes@[i] == mid.nodes@[i]);
                if !marks@[i] {
                    assert(mid.lists_same(o, i));
                    assert forall|k: int| 0 <= k < self.levels(i) implies #[trigger] self.adj(
                        i,
                        k,
                    ) == o.adj(i, k) by {
                        assert(mid.adj(i, k) == o.adj(i, k));
                    }
                }
                assert(self.is_live(i));
            }
        }
        Ok(touched)
    }
}

} // verus!
