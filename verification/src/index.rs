use crate::error::Error;
use crate::level::seeded_rng;
use crate::level::MAX_LEVEL;
use crate::metrics::MetricFuncs;
use crate::metrics::MAX_DIM;
use rand::rngs::StdRng;
use vstd::prelude::*;
use vstd::string::*;

verus! {

/// One slot of the node store: a named vector and, for each layer that the
/// node stands on, the slots of its neighbours. A deleted node leaves its
/// slot behind, empty and never used again.
pub struct Node {
    pub(crate) name: String,
    pub(crate) data: Vec<i32>,
    pub(crate) neighbors: Vec<Vec<usize>>,
    pub(crate) live: bool,
    pub(crate) pins: usize,
}

/// A layered proximity graph over named vectors.
///
/// The index owns its nodes in a store of slots; a neighbour is the number of
/// a slot, which resolves through the store and keeps nothing alive. Slots are
/// handed out in the order in which nodes come in.
pub struct Index {
    pub(crate) name: String,
    pub(crate) mfunc_kind: MetricFuncs,
    pub(crate) data_dim: usize,
    pub(crate) m: usize,
    pub(crate) m_max: usize,
    pub(crate) m_max_0: usize,
    pub(crate) ef_construction: usize,
    pub(crate) level_mult: u64,
    pub(crate) node_count: usize,
    pub(crate) max_layer: usize,
    pub(crate) nodes: Vec<Node>,
    pub(crate) enterpoint: Option<usize>,
    pub(crate) rng: StdRng,
}

/// The number of live nodes among the first `n` slots.
pub open(crate) spec fn live_upto(nodes: Seq<Node>, n: nat) -> nat
    decreases n,
{
    if n == 0 {
        0
    } else {
        live_upto(nodes, (n - 1) as nat) + if nodes[n - 1].live {
            1nat
        } else {
            0nat
        }
    }
}

/// The count reads the `live` marks and nothing else.
pub(crate) proof fn lemma_live_upto_same(a: Seq<Node>, b: Seq<Node>, n: nat)
    requires
        n <= a.len(),
        n <= b.len(),
        forall|i: int| 0 <= i < n ==> (#[trigger] a[i]).live == (#[trigger] b[i]).live,
    ensures
        live_upto(a, n) == live_upto(b, n),
    decreases n,
{
    if n > 0 {
        lemma_live_upto_same(a, b, (n - 1) as nat);
    }
}

/// There are no more live nodes than slots, and none where no slot is live.
pub(crate) proof fn lemma_live_upto_bounds(a: Seq<Node>, n: nat)
    requires
        n <= a.len(),
    ensures
        live_upto(a, n) <= n,
        (forall|i: int| 0 <= i < n ==> !(#[trigger] a[i]).live) ==> live_upto(a, n) == 0,
        (exists|i: int| 0 <= i < n && (#[trigger] a[i]).live) ==> live_upto(a, n) >= 1,
    decreases n,
{
    if n > 0 {
        lemma_live_upto_bounds(a, (n - 1) as nat);
        if exists|i: int| 0 <= i < n && (#[trigger] a[i]).live {
            let i = choose|i: int| 0 <= i < n && (#[trigger] a[i]).live;
            if i < n - 1 {
                assert(a[i].live);
            }
        }
    }
}

/// Turning one mark changes the count by one.
pub(crate) proof fn lemma_live_upto_flip(a: Seq<Node>, b: Seq<Node>, n: nat, k: int)
    requires
        n <= a.len(),
        a.len() == b.len(),
        0 <= k < a.len(),
        a[k].live,
        !b[k].live,
        forall|i: int| 0 <= i < a.len() && i != k ==> (#[trigger] a[i]).live == (
        #[trigger] b[i]).live,
    ensures
        live_upto(a, n) == live_upto(b, n) + if k < n {
            1nat
        } else {
            0nat
        },
    decreases n,
{
    if n > 0 {
        lemma_live_upto_flip(a, b, (n - 1) as nat, k);
    }
}

impl Index {
    /// The number of slots of the store, live and empty.
    pub open(crate) spec fn slots(&self) -> int {
        self.nodes@.len() as int
    }

    /// Whether slot `i` holds a node.
    pub open(crate) spec fn is_live(&self, i: int) -> bool {
        0 <= i < self.nodes@.len() && self.nodes@[i].live
    }

    /// The number of layers that the node in slot `i` stands on: its top
    /// layer and one more.
    pub open(crate) spec fn levels(&self, i: int) -> int {
        self.nodes@[i].neighbors@.len() as int
    }

    /// Whether slot `i` holds a node that stands on layer `l`: the membership
    /// of the layer.
    pub open(crate) spec fn on_layer(&self, i: int, l: int) -> bool {
        self.is_live(i) && 0 <= l < self.levels(i)
    }

    /// The neighbours of the node in slot `i` on layer `l`.
    pub open(crate) spec fn adj(&self, i: int, l: int) -> Seq<usize> {
        self.nodes@[i].neighbors@[l]@
    }

    /// Whether the node in slot `i` lists the node in slot `j` on layer `l`.
    pub open(crate) spec fn linked(&self, i: int, j: int, l: int) -> bool {
        self.on_layer(i, l) && 0 <= j <= usize::MAX && self.adj(i, l).contains(j as usize)
    }

    /// The name of the node in slot `i`.
    pub open(crate) spec fn name_of(&self, i: int) -> Seq<char> {
        self.nodes@[i].name@
    }

    /// The vector of the node in slot `i`.
    pub open(crate) spec fn vector_of(&self, i: int) -> Seq<i32> {
        self.nodes@[i].data@
    }

    /// The number of readers that hold the node in slot `i`.
    pub open(crate) spec fn pins_of(&self, i: int) -> int {
        self.nodes@[i].pins as int
    }

    /// Whether a live node goes by the name.
    pub open(crate) spec fn has_name(&self, name: Seq<char>) -> bool {
        exists|i: int| #[trigger] self.is_live(i) && self.name_of(i) == name
    }

    /// The slot of the node that goes by the name.
    pub open(crate) spec fn slot_of(&self, name: Seq<char>) -> int {
        choose|i: int| #[trigger] self.is_live(i) && self.name_of(i) == name
    }

    /// The names of the live nodes.
    pub open(crate) spec fn names(&self) -> Set<Seq<char>> {
        Set::new(|name: Seq<char>| self.has_name(name))
    }

    /// The most neighbours that a node may list on layer `l`.
    pub open(crate) spec fn cap(&self, l: int) -> int {
        if l == 0 {
            self.m_max_0 as int
        } else {
            self.m_max as int
        }
    }

    pub open(crate) spec fn spec_name(&self) -> Seq<char> {
        self.name@
    }

    pub open(crate) spec fn spec_metric(&self) -> MetricFuncs {
        self.mfunc_kind
    }

    pub open(crate) spec fn spec_data_dim(&self) -> int {
        self.data_dim as int
    }

    pub open(crate) spec fn spec_m(&self) -> int {
        self.m as int
    }

    pub open(crate) spec fn spec_ef_construction(&self) -> int {
        self.ef_construction as int
    }

    pub open(crate) spec fn spec_level_mult(&self) -> u64 {
        self.level_mult
    }

    pub open(crate) spec fn spec_node_count(&self) -> int {
        self.node_count as int
    }

    pub open(crate) spec fn spec_max_layer(&self) -> int {
        self.max_layer as int
    }

    pub open(crate) spec fn spec_enterpoint(&self) -> Option<usize> {
        self.enterpoint
    }

    pub open(crate) spec fn spec_rng(&self) -> StdRng {
        self.rng
    }

    /// One edge is in order: it leads to another live node on the same layer,
    /// and that node lists this one in turn.
    pub open(crate) spec fn edge_ok(&self, i: int, l: int, j: int) -> bool {
        &&& j != i
        &&& self.on_layer(j, l)
        &&& self.adj(j, l).contains(i as usize)
    }

    /// One adjacency list is in order: it names no node twice, and each of
    /// its edges is in order.
    pub open(crate) spec fn list_ok(&self, i: int, l: int) -> bool {
        &&& self.adj(i, l).no_duplicates()
        &&& forall|k: int|
            0 <= k < self.adj(i, l).len() ==> self.edge_ok(i, l, #[trigger] self.adj(i, l)[k] as int)
    }

    /// One slot is in order. A live node has a vector of the index's
    /// dimension, stands on layer 0 and on no layer above the top one, and
    /// its lists are in order; an empty slot holds no list and no reader.
    pub open(crate) spec fn node_ok(&self, i: int) -> bool {
        if self.nodes@[i].live {
            &&& self.vector_of(i).len() == self.data_dim
            &&& 1 <= self.levels(i) <= self.max_layer + 1
            &&& forall|l: int| 0 <= l < self.levels(i) ==> #[trigger] self.list_ok(i, l)
        } else {
            &&& self.levels(i) == 0
            &&& self.nodes@[i].pins == 0
        }
    }

    /// Every slot is in order.
    pub open(crate) spec fn graph_ok(&self) -> bool {
        forall|i: int| 0 <= i < self.nodes@.len() ==> #[trigger] self.node_ok(i)
    }

    /// No list is longer than its layer allows.
    pub open(crate) spec fn caps_ok(&self) -> bool {
        forall|i: int, l: int| #[trigger] self.on_layer(i, l) ==> self.adj(i, l).len() <= self.cap(l)
    }

    /// No two live nodes go by one name.
    pub open(crate) spec fn names_ok(&self) -> bool {
        forall|i: int, j: int|
            #[trigger] self.is_live(i) && #[trigger] self.is_live(j) && i != j ==> self.name_of(i)
                != self.name_of(j)
    }

    /// The entry point stands on the top layer; an index without one is
    /// empty, and its top layer is layer 0.
    pub open(crate) spec fn entry_ok(&self) -> bool {
        match self.enterpoint {
            Some(e) => self.is_live(e as int) && self.levels(e as int) == self.max_layer + 1,
            None => self.max_layer == 0 && forall|i: int| !#[trigger] self.is_live(i),
        }
    }

    /// The fixed parameters agree with each other and with the machine.
    pub open(crate) spec fn params_ok(&self) -> bool {
        &&& self.m_max == self.m
        &&& self.m_max_0 == 2 * self.m
        &&& self.data_dim <= MAX_DIM
        &&& self.max_layer <= MAX_LEVEL
    }

    /// Everything that holds of an index between two operations but the
    /// bounds on the lists' lengths.
    pub open(crate) spec fn wf_but_caps(&self) -> bool {
        &&& self.params_ok()
        &&& self.nodes@.len() <= usize::MAX
        &&& self.graph_ok()
        &&& self.names_ok()
        &&& self.entry_ok()
        &&& self.node_count == live_upto(self.nodes@, self.nodes@.len())
    }

    /// What holds of an index between any two operations.
    pub open(crate) spec fn wf(&self) -> bool {
        &&& self.wf_but_caps()
        &&& self.caps_ok()
    }

    /// Whether `other` differs from this index in its adjacency lists alone.
    pub open(crate) spec fn same_but_lists(&self, other: &Index) -> bool {
        &&& self.name == other.name
        &&& self.mfunc_kind == other.mfunc_kind
        &&& self.data_dim == other.data_dim
        &&& self.m == other.m
        &&& self.m_max == other.m_max
        &&& self.m_max_0 == other.m_max_0
        &&& self.ef_construction == other.ef_construction
        &&& self.level_mult == other.level_mult
        &&& self.node_count == other.node_count
        &&& self.max_layer == other.max_layer
        &&& self.enterpoint == other.enterpoint
        &&& self.rng == other.rng
        &&& self.nodes@.len() == other.nodes@.len()
        &&& forall|i: int|
            0 <= i < self.nodes@.len() ==> {
                &&& (#[trigger] self.nodes@[i]).name == other.nodes@[i].name
                &&& self.nodes@[i].data == other.nodes@[i].data
                &&& self.nodes@[i].live == other.nodes@[i].live
                &&& self.nodes@[i].pins == other.nodes@[i].pins
                &&& self.nodes@[i].neighbors@.len() == other.nodes@[i].neighbors@.len()
            }
    }

    /// A new, empty index. `level_mult` is the level generation factor in the
    /// form in which a header holds it; the index carries it and never reads
    /// it. The levels of the nodes are drawn from a generator that `seed`
    /// fixes.
    pub fn new(
        name: &str,
        mfunc_kind: MetricFuncs,
        data_dim: usize,
        m: usize,
        ef_construction: usize,
        level_mult: u64,
        seed: u64,
    ) -> (r: Result<Index, Error>)
        ensures
            r is Ok <==> data_dim <= MAX_DIM && 2 * m <= usize::MAX,
            r is Err ==> r == Err::<Index, Error>(Error::BadArgument),
            r is Ok ==> {
                let idx = r->Ok_0;
                &&& idx.wf()
                &&& idx.spec_name() == name@
                &&& idx.spec_metric() == mfunc_kind
                &&& idx.spec_data_dim() == data_dim
                &&& idx.spec_m() == m
                &&& idx.cap(0) == 2 * m
                &&& idx.cap(1) == m
                &&& idx.spec_ef_construction() == ef_construction
                &&& idx.spec_level_mult() == level_mult
                &&& idx.spec_node_count() == 0
                &&& idx.spec_max_layer() == 0
                &&& idx.spec_enterpoint() is None
                &&& idx.slots() == 0
            },
    {
        if data_dim > MAX_DIM || m > usize::MAX / 2 {
            return Err(Error::BadArgument);
        }
        let idx = Index {
            name: String::from_str(name),
            mfunc_kind,
            data_dim,
            m,
            m_max: m,
            m_max_0: 2 * m,
            ef_construction,
            level_mult,
            node_count: 0,
            max_layer: 0,
            nodes: Vec::new(),
            enterpoint: None,
            rng: seeded_rng(seed),
        };
        Ok(idx)
    }

    /// The name of the index.
    pub fn name(&self) -> (r: &String)
        ensures
            r@ == self.spec_name(),
    {
        &self.name
    }

    /// The metric of the index.
    pub fn mfunc_kind(&self) -> (r: MetricFuncs)
        ensures
            r == self.spec_metric(),
    {
        self.mfunc_kind
    }

    /// The dimension of the vectors.
    pub fn data_dim(&self) -> (r: usize)
        ensures
            r == self.spec_data_dim(),
    {
        self.data_dim
    }

    /// The out-degree that a new node aims at.
    pub fn m(&self) -> (r: usize)
        ensures
            r == self.spec_m(),
    {
        self.m
    }

    /// The most neighbours of a node on a layer above layer 0.
    pub fn m_max(&self) -> (r: usize)
        ensures
            r == self.cap(1),
    {
        self.m_max
    }

    /// The most neighbours of a node on layer 0.
    pub fn m_max_0(&self) -> (r: usize)
        ensures
            r == self.cap(0),
    {
        self.m_max_0
    }

    /// The width of the candidate list while a node is put in.
    pub fn ef_construction(&self) -> (r: usize)
        ensures
            r == self.spec_ef_construction(),
    {
        self.ef_construction
    }

    /// The level generation factor, as the index was given it.
    pub fn level_mult(&self) -> (r: u64)
        ensures
            r == self.spec_level_mult(),
    {
        self.level_mult
    }

    /// The number of live nodes.
    pub fn node_count(&self) -> (r: usize)
        ensures
            r == self.spec_node_count(),
    {
        self.node_count
    }

    /// The top layer.
    pub fn max_layer(&self) -> (r: usize)
        ensures
            r == self.spec_max_layer(),
    {
        self.max_layer
    }

    /// The first slot whose node goes by the name.
    pub open(crate) spec fn find_spec(&self, name: Seq<char>) -> int {
        choose|i: int|
            #[trigger] self.is_live(i) && self.name_of(i) == name && forall|j: int|
                #[trigger] self.is_live(j) && self.name_of(j) == name ==> i <= j
    }

    /// The slot of the node that goes by `name`, if there is one.
    pub fn find(&self, name: &str) -> (r: Option<usize>)
        ensures
            r is Some <==> self.has_name(name@),
            r is Some ==> self.is_live(r->Some_0 as int) && self.name_of(r->Some_0 as int)
                == name@,
            r is Some ==> forall|j: int|
                #[trigger] self.is_live(j) && self.name_of(j) == name@ ==> r->Some_0 <= j,
            r is Some ==> r->Some_0 == self.find_spec(name@),
    {
        let key = String::from_str(name);
        let mut i: usize = 0;
        while i < self.nodes.len()
            invariant
                i <= self.nodes@.len(),
                key@ == name@,
                forall|j: int|
                    0 <= j < i ==> !(#[trigger] self.is_live(j) && self.name_of(j) == name@),
            decreases self.nodes@.len() - i,
        {
            if self.nodes[i].live && self.nodes[i].name == key {
                proof {
                    assert(self.is_live(i as int));
                    let f = self.find_spec(name@);
                    assert(self.is_live(f) && self.name_of(f) == name@);
                    assert(f <= i);
                    if f < i {
                        assert(!(self.is_live(f) && self.name_of(f) == name@));
                    }
                }
                return Some(i);
            }
            i = i + 1;
        }
        None
    }

    /// Whether a node goes by `name`.
    pub fn contains(&self, name: &str) -> (r: bool)
        ensures
            r == self.has_name(name@),
    {
        self.find(name).is_some()
    }

    /// The name of the entry point, if the index has one.
    pub fn enterpoint(&self) -> (r: Option<String>)
        requires
            self.wf(),
        ensures
            r is Some <==> self.spec_enterpoint() is Some,
            r is Some ==> r->Some_0@ == self.name_of(self.spec_enterpoint()->Some_0 as int),
    {
        match self.enterpoint {
            Some(e) => Some(self.nodes[e].name.clone()),
            None => None,
        }
    }
}

} // verus!
