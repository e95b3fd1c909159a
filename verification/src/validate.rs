use crate::error::Error;
use crate::index::live_upto;
use crate::index::Index;
use crate::insert::list_has;
use vstd::prelude::*;

verus! {

/// Whether a list names no slot twice.
fn has_no_duplicates(v: &Vec<usize>) -> (b: bool)
    ensures
        b == v@.no_duplicates(),
{
    let mut i: usize = 0;
    while i < v.len()
        invariant
            i <= v@.len(),
            forall|a: int, c: int| 0 <= a < i && a < c < v@.len() ==> v@[a] != v@[c],
        decreases v@.len() - i,
    {
        let mut j: usize = i + 1;
        while j < v.len()
            invariant
                i < v@.len(),
                i < j <= v@.len(),
                forall|c: int| i < c < j ==> v@[i as int] != v@[c],
            decreases v@.len() - j,
        {
            if v[i] == v[j] {
                return false;
            }
            j = j + 1;
        }
        i = i + 1;
    }
    proof {
        assert forall|a: int, c: int| 0 <= a < v@.len() && 0 <= c < v@.len() && a != c implies v@[a]
            != v@[c] by {
            if a < c {
                assert(v@[a] != v@[c]);
            } else {
                assert(v@[c] != v@[a]);
            }
        }
    }
    true
}

impl Index {
    /// Whether one edge is in order.
    fn check_edge(&self, i: usize, l: usize, j: usize) -> (b: bool)
        requires
            i < self.nodes@.len(),
        ensures
            b == self.edge_ok(i as int, l as int, j as int),
    {
        j != i && j < self.nodes.len() && self.nodes[j].live && l < self.nodes[j].neighbors.len()
            && list_has(&self.nodes[j].neighbors[l], i)
    }

    /// One list is in order, and no longer than its layer allows.
    pub open(crate) spec fn list_fits(&self, i: int, l: int) -> bool {
        self.list_ok(i, l) && self.adj(i, l).len() <= self.cap(l)
    }

    /// Whether one list is in order, and no longer than its layer allows.
    fn check_list(&self, i: usize, l: usize) -> (b: bool)
        requires
            i < self.nodes@.len(),
            l < self.levels(i as int),
        ensures
            b == self.list_fits(i as int, l as int),
    {
        let limit = if l == 0 {
            self.m_max_0
        } else {
            self.m_max
        };
        if self.nodes[i].neighbors[l].len() > limit {
            return false;
        }
        if !has_no_duplicates(&self.nodes[i].neighbors[l]) {
            return false;
        }
        let mut k: usize = 0;
        while k < self.nodes[i].neighbors[l].len()
            invariant
                i < self.nodes@.len(),
                l < self.levels(i as int),
                k <= self.adj(i as int, l as int).len(),
                forall|t: int|
                    0 <= t < k ==> self.edge_ok(
                        i as int,
                        l as int,
                        #[trigger] self.adj(i as int, l as int)[t] as int,
                    ),
            decreases self.adj(i as int, l as int).len() - k,
        {
            if !self.check_edge(i, l, self.nodes[i].neighbors[l][k]) {
                return false;
            }
            k = k + 1;
        }
        true
    }

    /// One slot is in order, and none of its lists is longer than its layer
    /// allows.
    pub open(crate) spec fn node_fits(&self, i: int) -> bool {
        &&& self.node_ok(i)
        &&& forall|l: int| #[trigger] self.on_layer(i, l) ==> self.adj(i, l).len() <= self.cap(l)
    }

    /// Whether one slot is in order, and none of its lists longer than its
    /// layer allows.
    fn check_node(&self, i: usize) -> (b: bool)
        requires
            i < self.nodes@.len(),
        ensures
            b == self.node_fits(i as int),
    {
        if !self.nodes[i].live {
            return self.nodes[i].neighbors.len() == 0 && self.nodes[i].pins == 0;
        }
        let levels = self.nodes[i].neighbors.len();
        if self.nodes[i].data.len() != self.data_dim || levels == 0 || levels - 1 > self.max_layer {
            return false;
        }
        let mut l: usize = 0;
        while l < levels
            invariant
                i < self.nodes@.len(),
                self.nodes@[i as int].live,
                levels == self.levels(i as int),
                l <= levels,
                forall|k: int| 0 <= k < l ==> #[trigger] self.list_fits(i as int, k),
            decreases levels - l,
        {
            if !self.check_list(i, l) {
                proof {
                    assert(self.on_layer(i as int, l as int));
                    assert(!self.list_fits(i as int, l as int));
                }
                return false;
            }
            l = l + 1;
        }
        proof {
            assert forall|k: int| 0 <= k < self.levels(i as int) implies #[trigger] self.list_ok(
                i as int,
                k,
            ) by {
                assert(self.list_fits(i as int, k));
            }
            assert forall|k: int| #[trigger] self.on_layer(i as int, k) implies self.adj(
                i as int,
                k,
            ).len() <= self.cap(k) by {
                assert(self.list_fits(i as int, k));
            }
        }
        true
    }

    /// Whether every slot is in order, and no list too long.
    fn check_graph(&self) -> (b: bool)
        ensures
            b == (self.graph_ok() && self.caps_ok()),
    {
        let mut i: usize = 0;
        while i < self.nodes.len()
            invariant
                i <= self.nodes@.len(),
                forall|j: int| 0 <= j < i ==> #[trigger] self.node_fits(j),
            decreases self.nodes@.len() - i,
        {
            if !self.check_node(i) {
                proof {
                    if self.node_ok(i as int) {
                        let l = choose|l: int|
                            #[trigger] self.on_layer(i as int, l) && !(self.adj(i as int, l).len()
                                <= self.cap(l));
                        assert(self.on_layer(i as int, l));
                    }
                }
                return false;
            }
            i = i + 1;
        }
        proof {
            assert forall|j: int| 0 <= j < self.nodes@.len() implies #[trigger] self.node_ok(j) by {
                assert(self.node_fits(j));
            }
            assert forall|j: int, l: int| #[trigger] self.on_layer(j, l) implies self.adj(
                j,
                l,
            ).len() <= self.cap(l) by {
                assert(self.node_fits(j));
            }
        }
        true
    }

    /// Whether no two live nodes go by one name.
    fn check_names(&self) -> (b: bool)
        ensures
            b == self.names_ok(),
    {
        let n = self.nodes.len();
        let mut i: usize = 0;
        while i < n
            invariant
                n == self.nodes@.len(),
                i <= n,
                forall|a: int, c: int|
                    0 <= a < i && a < c < n && #[trigger] self.is_live(a) && #[trigger] self.is_live(
                        c,
                    ) ==> self.name_of(a) != self.name_of(c),
            decreases n - i,
        {
            if self.nodes[i].live {
                let mut j: usize = i + 1;
                while j < n
                    invariant
                        n == self.nodes@.len(),
                        i < n,
                        self.is_live(i as int),
                        i < j <= n,
                        forall|c: int|
                            i < c < j && #[trigger] self.is_live(c) ==> self.name_of(i as int)
                                != self.name_of(c),
                    decreases n - j,
                {
                    if self.nodes[j].live && self.nodes[i].name == self.nodes[j].name {
                        proof {
                            assert(self.is_live(i as int) && self.is_live(j as int));
                        }
                        return false;
                    }
                    j = j + 1;
                }
            }
            i = i + 1;
        }
        proof {
            assert forall|a: int, c: int|
                #[trigger] self.is_live(a) && #[trigger] self.is_live(c) && a != c implies self.name_of(
                a,
            ) != self.name_of(c) by {
                if a < c {
                    assert(self.name_of(a) != self.name_of(c));
                } else {
                    assert(self.name_of(c) != self.name_of(a));
                }
            }
        }
        true
    }

    /// The number of live nodes.
    fn count_live(&self) -> (c: usize)
        ensures
            c == live_upto(self.nodes@, self.nodes@.len()),
    {
        let mut c: usize = 0;
        let mut i: usize = 0;
        while i < self.nodes.len()
            invariant
                i <= self.nodes@.len(),
                c == live_upto(self.nodes@, i as nat),
                c <= i,
            decreases self.nodes@.len() - i,
        {
            if self.nodes[i].live {
                c = c + 1;
            }
            i = i + 1;
        }
        c
    }

    /// Whether the entry point is in order.
    fn check_entry(&self) -> (b: bool)
        ensures
            b == self.entry_ok(),
    {
        match self.enterpoint {
            Some(e) => e < self.nodes.len() && self.nodes[e].live
                && self.nodes[e].neighbors.len() >= 1 && self.nodes[e].neighbors.len() - 1
                == self.max_layer,
            None => {
                if self.max_layer != 0 {
                    return false;
                }
                let mut i: usize = 0;
                while i < self.nodes.len()
                    invariant
                        self.enterpoint is None,
                        self.max_layer == 0,
                        i <= self.nodes@.len(),
                        forall|j: int| 0 <= j < i ==> !#[trigger] self.is_live(j),
                    decreases self.nodes@.len() - i,
                {
                    if self.nodes[i].live {
                        proof {
                            assert(self.is_live(i as int));
                        }
                        return false;
                    }
                    i = i + 1;
                }
                true
            },
        }
    }

    /// Whether everything holds of this index that holds of an index between
    /// two operations.
    pub(crate) fn is_sound(&self) -> (b: bool)
        ensures
            b == self.wf(),
    {
        if self.node_count > self.nodes.len() {
            proof {
                crate::index::lemma_live_upto_bounds(self.nodes@, self.nodes@.len());
            }
            return false;
        }
        if self.m_max != self.m || self.m > usize::MAX / 2 || self.m_max_0 != 2 * self.m
            || self.data_dim > crate::metrics::MAX_DIM || self.max_layer > crate::level::MAX_LEVEL {
            return false;
        }
        self.check_graph() && self.check_names() && self.check_entry() && self.node_count
            == self.count_live()
    }

    /// Tells whether the invariants of the graph hold. An index that breaks
    /// one takes no further writes.
    pub fn validate(&self) -> (r: Result<(), Error>)
        ensures
            r is Ok <==> self.wf(),
            r is Err ==> r->Err_0 == Error::InvariantViolation,
    {
        if self.is_sound() {
            Ok(())
        } else {
            Err(Error::InvariantViolation)
        }
    }
}

} // verus!
