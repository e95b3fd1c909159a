use crate::fields::floats_fields;
use crate::fields::group_fields;
use crate::fields::groups_fields;
use crate::fields::lemma_read_floats;
use crate::fields::lemma_read_group;
use crate::fields::lemma_read_groups;
use crate::fields::read_double;
use crate::fields::read_floats;
use crate::fields::read_group;
use crate::fields::read_groups;
use crate::fields::read_size;
use crate::fields::read_str;
use crate::fields::FieldView;
use crate::store::texts_of;
use crate::store::texts_of_lists;
use vstd::prelude::*;
use vstd::string::*;

verus! {

/// The version of the index header's format.
pub const INDEX_VERSION: i32 = 0;

/// The version of the node record's format.
pub const NODE_VERSION: i32 = 0;

/// The header of an index as it is persisted: the parameters, the state,
/// and the names of the nodes, layer by layer and all together.
#[derive(Debug, PartialEq, Clone, Default)]
pub struct IndexRedis {
    pub name: String,
    pub mfunc_kind: String,
    pub data_dim: usize,
    pub m: usize,
    pub m_max: usize,
    pub m_max_0: usize,
    pub ef_construction: usize,
    pub level_mult: u64,
    pub node_count: usize,
    pub max_layer: usize,
    pub layers: Vec<Vec<String>>,
    pub nodes: Vec<String>,
    pub enterpoint: Option<String>,
}

/// What a header holds.
pub struct IndexRedisView {
    pub name: Seq<char>,
    pub mfunc_kind: Seq<char>,
    pub data_dim: usize,
    pub m: usize,
    pub m_max: usize,
    pub m_max_0: usize,
    pub ef_construction: usize,
    pub level_mult: u64,
    pub node_count: usize,
    pub max_layer: usize,
    pub layers: Seq<Seq<Seq<char>>>,
    pub nodes: Seq<Seq<char>>,
    pub enterpoint: Option<Seq<char>>,
}

impl View for IndexRedis {
    type V = IndexRedisView;

    open spec fn view(&self) -> IndexRedisView {
        IndexRedisView {
            name: self.name@,
            mfunc_kind: self.mfunc_kind@,
            data_dim: self.data_dim,
            m: self.m,
            m_max: self.m_max,
            m_max_0: self.m_max_0,
            ef_construction: self.ef_construction,
            level_mult: self.level_mult,
            node_count: self.node_count,
            max_layer: self.max_layer,
            layers: texts_of_lists(self.layers@),
            nodes: texts_of(self.nodes@),
            enterpoint: match self.enterpoint {
                Some(e) => Some(e@),
                None => None,
            },
        }
    }
}

/// The record of a node as it is persisted: its vector and the names of its
/// neighbours, layer by layer.
#[derive(Debug, PartialEq, Clone, Default)]
pub struct NodeRedis {
    pub data: Vec<i32>,
    pub neighbors: Vec<Vec<String>>,
}

/// What a node record holds.
pub struct NodeRedisView {
    pub data: Seq<i32>,
    pub neighbors: Seq<Seq<Seq<char>>>,
}

impl View for NodeRedis {
    type V = NodeRedisView;

    open spec fn view(&self) -> NodeRedisView {
        NodeRedisView { data: self.data@, neighbors: texts_of_lists(self.neighbors@) }
    }
}

/// The text that stands for the entry point in a header.
pub open spec fn entry_text(e: Option<Seq<char>>) -> Seq<char> {
    match e {
        Some(name) => name,
        None => "null"@,
    }
}

/// The entry point that a text of a header stands for.
pub open spec fn entry_of_text(text: Seq<char>) -> Option<Seq<char>> {
    if text == "null"@ {
        None
    } else {
        Some(text)
    }
}

/// The fields of a header up to the layers.
pub open spec fn index_head(v: IndexRedisView) -> Seq<FieldView> {
    seq![
        FieldView::Str(v.name),
        FieldView::Str(v.mfunc_kind),
        FieldView::Unsigned(v.data_dim as u64),
        FieldView::Unsigned(v.m as u64),
        FieldView::Unsigned(v.m_max as u64),
        FieldView::Unsigned(v.m_max_0 as u64),
        FieldView::Unsigned(v.ef_construction as u64),
        FieldView::Double(v.level_mult),
        FieldView::Unsigned(v.node_count as u64),
        FieldView::Unsigned(v.max_layer as u64),
        FieldView::Unsigned(v.layers.len() as u64),
    ]
}

/// The fields of a header, in the order of the stream: the name, the
/// metric's tag, the dimension, the three out-degrees, the width of
/// construction, the level generation factor, the number of nodes, the top
/// layer; the number of layers and, for each, its length and its names; the
/// number of nodes and their names; the name of the entry point, or `null`.
pub open spec fn index_fields(v: IndexRedisView) -> Seq<FieldView> {
    index_head(v) + groups_fields(v.layers) + group_fields(v.nodes) + seq![
        FieldView::Str(entry_text(v.enterpoint)),
    ]
}

/// The header that a stream of fields holds, if it holds one.
pub open spec fn decode_index(f: Seq<FieldView>) -> Option<IndexRedisView> {
    if read_str(f, 0) is Some && read_str(f, 1) is Some && read_size(f, 2) is Some && read_size(
        f,
        3,
    ) is Some && read_size(f, 4) is Some && read_size(f, 5) is Some && read_size(f, 6) is Some
        && read_double(f, 7) is Some && read_size(f, 8) is Some && read_size(f, 9) is Some
        && read_size(f, 10) is Some {
        match read_groups(f, 11, read_size(f, 10)->Some_0 as nat) {
            Some((layers, after_layers)) => match read_group(f, after_layers) {
                Some((nodes, after_nodes)) => match read_str(f, after_nodes) {
                    Some(entry) => Some(
                        IndexRedisView {
                            name: read_str(f, 0)->Some_0,
                            mfunc_kind: read_str(f, 1)->Some_0,
                            data_dim: read_size(f, 2)->Some_0,
                            m: read_size(f, 3)->Some_0,
                            m_max: read_size(f, 4)->Some_0,
                            m_max_0: read_size(f, 5)->Some_0,
                            ef_construction: read_size(f, 6)->Some_0,
                            level_mult: read_double(f, 7)->Some_0,
                            node_count: read_size(f, 8)->Some_0,
                            max_layer: read_size(f, 9)->Some_0,
                            layers,
                            nodes,
                            enterpoint: entry_of_text(entry),
                        },
                    ),
                    None => None,
                },
                None => None,
            },
            None => None,
        }
    } else {
        None
    }
}

/// The fields of a node record, in the order of the stream: the dimension
/// and the components of the vector; the number of layers and, for each,
/// its length and the names of the neighbours.
pub open spec fn node_fields(v: NodeRedisView) -> Seq<FieldView> {
    seq![FieldView::Unsigned(v.data.len() as u64)] + floats_fields(v.data) + seq![
        FieldView::Unsigned(v.neighbors.len() as u64),
    ] + groups_fields(v.neighbors)
}

/// The node record that a stream of fields holds, if it holds one.
pub open spec fn decode_node(f: Seq<FieldView>) -> Option<NodeRedisView> {
    match read_size(f, 0) {
        Some(dim) => match read_floats(f, 1, dim as nat) {
            Some(data) => match read_size(f, 1 + dim) {
                Some(count) => match read_groups(f, 2 + dim, count as nat) {
                    Some((neighbors, after)) => Some(NodeRedisView { data, neighbors }),
                    None => None,
                },
                None => None,
            },
            None => None,
        },
        None => None,
    }
}

/// Whether the lists of a record are of lengths that a machine can hold.
pub open spec fn lists_fit(groups: Seq<Seq<Seq<char>>>) -> bool {
    &&& groups.len() <= usize::MAX
    &&& forall|i: int| 0 <= i < groups.len() ==> (#[trigger] groups[i]).len() <= usize::MAX
}

/// A header that is written and read comes back as it was, unless a node
/// named `null` is its entry point: that name is taken for the mark of a
/// header without entry point.
pub proof fn law_index_record_round_trip(v: IndexRedisView)
    requires
        lists_fit(v.layers),
        v.nodes.len() <= usize::MAX,
        v.enterpoint != Some("null"@),
    ensures
        decode_index(index_fields(v)) == Some(v),
{
    let f = index_fields(v);
    let head = index_head(v);
    let lf = groups_fields(v.layers);
    let nf = group_fields(v.nodes);
    assert(head.len() == 11);
    assert forall|i: int| 0 <= i < 11 implies f[i] == head[i] by {}
    assert(f.subrange(11, 11 + lf.len() as int) =~= lf);
    lemma_read_groups(f, 11, v.layers);
    let p: int = 11 + lf.len() as int;
    assert(f.subrange(p, p + nf.len() as int) =~= nf);
    lemma_read_group(f, p, v.nodes);
    let last: int = p + 1 + v.nodes.len() as int;
    assert(f[last] == FieldView::Str(entry_text(v.enterpoint)));
    assert(entry_of_text(entry_text(v.enterpoint)) == v.enterpoint);
    let d = decode_index(f)->Some_0;
    assert(d.layers == v.layers);
    assert(d.nodes == v.nodes);
}

/// A node record that is written and read comes back as it was.
pub proof fn law_node_record_round_trip(v: NodeRedisView)
    requires
        v.data.len() <= usize::MAX,
        lists_fit(v.neighbors),
    ensures
        decode_node(node_fields(v)) == Some(v),
{
    let f = node_fields(v);
    let d = v.data.len() as int;
    assert(f[0] == FieldView::Unsigned(v.data.len() as u64));
    assert forall|i: int| 0 <= i < v.data.len() implies f[1 + i] == FieldView::Float(
        #[trigger] v.data[i],
    ) by {
        assert(f[1 + i] == floats_fields(v.data)[i]);
    }
    lemma_read_floats(f, 1, v.data, v.data.len());
    assert(v.data.take(d) == v.data);
    assert(f[1 + d] == FieldView::Unsigned(v.neighbors.len() as u64));
    let gf = groups_fields(v.neighbors);
    assert(f.subrange(2 + d, 2 + d + gf.len() as int) =~= gf);
    lemma_read_groups(f, 2 + d, v.neighbors);
}

} // verus!
