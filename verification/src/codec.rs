use crate::fields::floats_fields;
use crate::fields::group_fields;
use crate::fields::groups_fields;
use crate::fields::read_double;
use crate::fields::read_float;
use crate::fields::read_floats;
use crate::fields::read_group;
use crate::fields::read_groups;
use crate::fields::read_size;
use crate::fields::read_str;
use crate::fields::read_strs;
use crate::fields::read_unsigned;
use crate::fields::strs_fields;
use crate::fields::views_of;
use crate::fields::Field;
use crate::fields::FieldView;
use crate::records::decode_index;
use crate::records::decode_node;
use crate::records::entry_text;
use crate::records::index_fields;
use crate::records::index_head;
use crate::records::node_fields;
use crate::records::IndexRedis;
use crate::records::NodeRedis;
use crate::records::INDEX_VERSION;
use crate::records::NODE_VERSION;
use crate::store::texts_of;
use crate::store::texts_of_lists;
use vstd::prelude::*;
use vstd::string::*;

verus! {

/// What `read_strs` gives, place by place.
pub proof fn lemma_strs_by_place(f: Seq<FieldView>, pos: int, n: nat)
    ensures
        read_strs(f, pos, n) is Some <==> forall|i: int|
            0 <= i < n ==> (#[trigger] read_str(f, pos + i)) is Some,
        read_strs(f, pos, n) is Some ==> read_strs(f, pos, n)->Some_0.len() == n && forall|i: int|
            0 <= i < n ==> (#[trigger] read_strs(f, pos, n)->Some_0[i]) == read_str(
                f,
                pos + i,
            )->Some_0,
    decreases n,
{
    if n > 0 {
        lemma_strs_by_place(f, pos, (n - 1) as nat);
        if read_strs(f, pos, n) is Some {
            assert forall|i: int| 0 <= i < n implies (#[trigger] read_str(f, pos + i)) is Some by {}
        }
        if forall|i: int| 0 <= i < n ==> (#[trigger] read_str(f, pos + i)) is Some {
            assert(read_str(f, pos + (n - 1)) is Some);
            assert forall|i: int| 0 <= i < n - 1 implies (#[trigger] read_str(
                f,
                pos + i,
            )) is Some by {}
        }
    }
}

/// What `read_floats` gives, place by place.
pub proof fn lemma_floats_by_place(f: Seq<FieldView>, pos: int, n: nat)
    ensures
        read_floats(f, pos, n) is Some <==> forall|i: int|
            0 <= i < n ==> (#[trigger] read_float(f, pos + i)) is Some,
        read_floats(f, pos, n) is Some ==> read_floats(f, pos, n)->Some_0.len() == n
            && forall|i: int|
            0 <= i < n ==> (#[trigger] read_floats(f, pos, n)->Some_0[i]) == read_float(
                f,
                pos + i,
            )->Some_0,
    decreases n,
{
    if n > 0 {
        lemma_floats_by_place(f, pos, (n - 1) as nat);
        if read_floats(f, pos, n) is Some {
            assert forall|i: int| 0 <= i < n implies (#[trigger] read_float(
                f,
                pos + i,
            )) is Some by {}
        }
        if forall|i: int| 0 <= i < n ==> (#[trigger] read_float(f, pos + i)) is Some {
            assert(read_float(f, pos + (n - 1)) is Some);
            assert forall|i: int| 0 <= i < n - 1 implies (#[trigger] read_float(
                f,
                pos + i,
            )) is Some by {}
        }
    }
}

/// Lists that cannot be read up to some count cannot be read beyond it.
pub proof fn lemma_groups_fail_on(f: Seq<FieldView>, pos: int, k: nat, n: nat)
    requires
        k <= n,
        read_groups(f, pos, k) is None,
    ensures
        read_groups(f, pos, n) is None,
    decreases n,
{
    if k < n {
        lemma_groups_fail_on(f, pos, k, (n - 1) as nat);
    }
}

/// The number at a place of a stream.
fn get_unsigned(fields: &Vec<Field>, pos: usize) -> (r: Option<u64>)
    ensures
        r == read_unsigned(views_of(fields@), pos as int),
{
    if pos < fields.len() {
        match &fields[pos] {
            Field::Unsigned(n) => Some(*n),
            _ => None,
        }
    } else {
        None
    }
}

/// The length at a place of a stream.
fn get_size(fields: &Vec<Field>, pos: usize) -> (r: Option<usize>)
    ensures
        r == read_size(views_of(fields@), pos as int),
{
    match get_unsigned(fields, pos) {
        Some(n) => if n <= usize::MAX as u64 {
            Some(n as usize)
        } else {
            None
        },
        None => None,
    }
}

/// The string at a place of a stream.
fn get_str(fields: &Vec<Field>, pos: usize) -> (r: Option<String>)
    ensures
        r is Some <==> read_str(views_of(fields@), pos as int) is Some,
        r is Some ==> r->Some_0@ == read_str(views_of(fields@), pos as int)->Some_0,
{
    if pos < fields.len() {
        match &fields[pos] {
            Field::Str(s) => Some(s.clone()),
            _ => None,
        }
    } else {
        None
    }
}

/// The double at a place of a stream.
fn get_double(fields: &Vec<Field>, pos: usize) -> (r: Option<u64>)
    ensures
        r == read_double(views_of(fields@), pos as int),
{
    if pos < fields.len() {
        match &fields[pos] {
            Field::Double(d) => Some(*d),
            _ => None,
        }
    } else {
        None
    }
}

/// The `n` strings from a place of a stream on.
fn get_strs(fields: &Vec<Field>, pos: usize, n: usize) -> (r: Option<Vec<String>>)
    ensures
        r is Some <==> read_strs(views_of(fields@), pos as int, n as nat) is Some,
        r is Some ==> texts_of(r->Some_0@) == read_strs(
            views_of(fields@),
            pos as int,
            n as nat,
        )->Some_0,
        r is Some && n > 0 ==> pos + n <= fields@.len(),
{
    let ghost f = views_of(fields@);
    let len = fields.len();
    proof {
        lemma_strs_by_place(f, pos as int, n as nat);
    }
    let mut out: Vec<String> = Vec::new();
    if n == 0 {
        proof {
            assert(texts_of(out@) =~= Seq::<Seq<char>>::empty());
        }
        return Some(out);
    }
    if pos >= len || n > len - pos {
        proof {
            assert(read_str(f, pos + (n - 1)) is None);
        }
        return None;
    }
    let mut i: usize = 0;
    while i < n
        invariant
            f == views_of(fields@),
            len == fields@.len(),
            pos + n <= len,
            i <= n,
            out@.len() == i,
            forall|j: int|
                0 <= j < i ==> (#[trigger] read_str(f, pos + j)) is Some && out@[j]@ == read_str(
                    f,
                    pos + j,
                )->Some_0,
        decreases n - i,
    {
        match get_str(fields, pos + i) {
            Some(s) => {
                out.push(s);
            },
            None => {
                proof {
                    lemma_strs_by_place(f, pos as int, n as nat);
                    assert(read_str(f, pos + i) is None);
                }
                return None;
            },
        }
        i = i + 1;
    }
    proof {
        lemma_strs_by_place(f, pos as int, n as nat);
        let want = read_strs(f, pos as int, n as nat)->Some_0;
        assert forall|j: int| 0 <= j < n implies texts_of(out@)[j] == want[j] by {
            assert(read_str(f, pos + j) is Some);
        }
        assert(texts_of(out@) =~= want);
    }
    Some(out)
}

/// The `n` floats from a place of a stream on.
fn get_floats(fields: &Vec<Field>, pos: usize, n: usize) -> (r: Option<Vec<i32>>)
    ensures
        r is Some <==> read_floats(views_of(fields@), pos as int, n as nat) is Some,
        r is Some ==> r->Some_0@ == read_floats(views_of(fields@), pos as int, n as nat)->Some_0,
        r is Some && n > 0 ==> pos + n <= fields@.len(),
{
    let ghost f = views_of(fields@);
    let len = fields.len();
    proof {
        lemma_floats_by_place(f, pos as int, n as nat);
    }
    let mut out: Vec<i32> = Vec::new();
    if n == 0 {
        proof {
            assert(out@ =~= Seq::<i32>::empty());
        }
        return Some(out);
    }
    if pos >= len || n > len - pos {
        proof {
            assert(read_float(f, pos + (n - 1)) is None);
        }
        return None;
    }
    let mut i: usize = 0;
    while i < n
        invariant
            f == views_of(fields@),
            len == fields@.len(),
            pos + n <= len,
            i <= n,
            out@.len() == i,
            forall|j: int|
                0 <= j < i ==> (#[trigger] read_float(f, pos + j)) is Some && out@[j]
                    == read_float(f, pos + j)->Some_0,
        decreases n - i,
    {
        match &fields[pos + i] {
            Field::Float(x) => {
                out.push(*x);
            },
            _ => {
                proof {
                    lemma_floats_by_place(f, pos as int, n as nat);
                    assert(read_float(f, pos + i) is None);
                }
                return None;
            },
        }
        i = i + 1;
    }
    proof {
        lemma_floats_by_place(f, pos as int, n as nat);
        let want = read_floats(f, pos as int, n as nat)->Some_0;
        assert forall|j: int| 0 <= j < n implies out@[j] == want[j] by {
            assert(read_float(f, pos + j) is Some);
        }
        assert(out@ =~= want);
    }
    Some(out)
}

/// The list of strings at a place of a stream, and the place after it.
fn get_group(fields: &Vec<Field>, pos: usize) -> (r: Option<(Vec<String>, usize)>)
    ensures
        r is Some <==> read_group(views_of(fields@), pos as int) is Some,
        r is Some ==> texts_of(r->Some_0.0@) == read_group(views_of(fields@), pos as int)->Some_0.0
            && r->Some_0.1 == read_group(views_of(fields@), pos as int)->Some_0.1
            && r->Some_0.1 <= fields@.len() && r->Some_0.1 > pos,
{
    if pos >= fields.len() {
        return None;
    }
    let n = match get_size(fields, pos) {
        Some(n) => n,
        None => {
            return None;
        },
    };
    match get_strs(fields, pos + 1, n) {
        Some(names) => Some((names, pos + 1 + n)),
        None => None,
    }
}

/// The `n` lists from a place of a stream on, and the place after them.
fn get_groups(fields: &Vec<Field>, pos: usize, n: usize) -> (r: Option<(Vec<Vec<String>>, usize)>)
    requires
        pos <= fields@.len(),
    ensures
        r is Some <==> read_groups(views_of(fields@), pos as int, n as nat) is Some,
        r is Some ==> texts_of_lists(r->Some_0.0@) == read_groups(
            views_of(fields@),
            pos as int,
            n as nat,
        )->Some_0.0 && r->Some_0.1 == read_groups(views_of(fields@), pos as int, n as nat)->Some_0.1
            && r->Some_0.1 <= fields@.len(),
{
    let ghost f = views_of(fields@);
    let mut out: Vec<Vec<String>> = Vec::new();
    let mut cur: usize = pos;
    let mut k: usize = 0;
    proof {
        assert(texts_of_lists(out@) =~= Seq::<Seq<Seq<char>>>::empty());
    }
    while k < n
        invariant
            f == views_of(fields@),
            k <= n,
            cur <= fields@.len(),
            read_groups(f, pos as int, k as nat) == Some((texts_of_lists(out@), cur as int)),
        decreases n - k,
    {
        let ghost before = out@;
        match get_group(fields, cur) {
            Some((names, after)) => {
                out.push(names);
                cur = after;
                proof {
                    assert(texts_of_lists(out@) =~= texts_of_lists(before).push(texts_of(names@)));
                }
            },
            None => {
                proof {
                    assert(read_groups(f, pos as int, (k + 1) as nat) is None);
                    lemma_groups_fail_on(f, pos as int, (k + 1) as nat, n as nat);
                }
                return None;
            },
        }
        k = k + 1;
    }
    Some((out, cur))
}

/// Appends a list of strings to a stream, with its length before it.
fn put_group(out: &mut Vec<Field>, names: &Vec<String>)
    ensures
        views_of(final(out)@) == views_of(old(out)@) + group_fields(texts_of(names@)),
{
    let ghost start = views_of(out@);
    out.push(Field::Unsigned(names.len() as u64));
    let mut i: usize = 0;
    while i < names.len()
        invariant
            i <= names@.len(),
            views_of(out@) == start + seq![FieldView::Unsigned(names@.len() as u64)] + strs_fields(
                texts_of(names@).take(i as int),
            ),
        decreases names@.len() - i,
    {
        let ghost before = views_of(out@);
        out.push(Field::Str(names[i].clone()));
        proof {
            let t = texts_of(names@);
            assert(views_of(out@) =~= before.push(FieldView::Str(t[i as int])));
            assert(strs_fields(t.take(i + 1)) =~= strs_fields(t.take(i as int)).push(
                FieldView::Str(t[i as int]),
            ));
            assert(views_of(out@) =~= start + seq![FieldView::Unsigned(names@.len() as u64)]
                + strs_fields(t.take(i + 1)));
        }
        i = i + 1;
    }
    proof {
        let t = texts_of(names@);
        assert(t.take(names@.len() as int) =~= t);
        assert(views_of(out@) =~= start + group_fields(t));
    }
}

/// Appends several lists of strings to a stream, each with its length.
fn put_groups(out: &mut Vec<Field>, groups: &Vec<Vec<String>>)
    ensures
        views_of(final(out)@) == views_of(old(out)@) + groups_fields(texts_of_lists(groups@)),
{
    let ghost start = views_of(out@);
    let ghost all = texts_of_lists(groups@);
    let mut k: usize = 0;
    proof {
        assert(all.take(0) =~= Seq::<Seq<Seq<char>>>::empty());
        assert(views_of(out@) =~= start + groups_fields(all.take(0)));
    }
    while k < groups.len()
        invariant
            k <= groups@.len(),
            all == texts_of_lists(groups@),
            views_of(out@) == start + groups_fields(all.take(k as int)),
        decreases groups@.len() - k,
    {
        put_group(out, &groups[k]);
        proof {
            let next = all.take(k + 1);
            assert(next.drop_last() =~= all.take(k as int));
            assert(next.last() == texts_of(groups@[k as int]@));
            assert(views_of(out@) =~= start + groups_fields(next));
        }
        k = k + 1;
    }
    proof {
        assert(all.take(groups@.len() as int) =~= all);
    }
}

/// Writes a header as the fields of the host's stream.
pub fn save_index(index: &IndexRedis) -> (out: Vec<Field>)
    ensures
        views_of(out@) == index_fields(index@),
{
    let mut out: Vec<Field> = Vec::new();
    out.push(Field::Str(index.name.clone()));
    out.push(Field::Str(index.mfunc_kind.clone()));
    out.push(Field::Unsigned(index.data_dim as u64));
    out.push(Field::Unsigned(index.m as u64));
    out.push(Field::Unsigned(index.m_max as u64));
    out.push(Field::Unsigned(index.m_max_0 as u64));
    out.push(Field::Unsigned(index.ef_construction as u64));
    out.push(Field::Double(index.level_mult));
    out.push(Field::Unsigned(index.node_count as u64));
    out.push(Field::Unsigned(index.max_layer as u64));
    out.push(Field::Unsigned(index.layers.len() as u64));
    proof {
        assert(views_of(out@) =~= index_head(index@));
    }
    put_groups(&mut out, &index.layers);
    put_group(&mut out, &index.nodes);
    let ghost before = views_of(out@);
    match &index.enterpoint {
        Some(e) => {
            out.push(Field::Str(e.clone()));
        },
        None => {
            out.push(Field::Str(String::from_str("null")));
        },
    }
    proof {
        assert(views_of(out@) =~= before.push(FieldView::Str(entry_text(index@.enterpoint))));
        assert(views_of(out@) =~= index_fields(index@));
    }
    out
}

/// Reads a header back from the fields of the host's stream. A stream of
/// another version, or one that holds no header, gives nothing.
pub fn load_index(fields: &Vec<Field>, version: i32) -> (r: Option<IndexRedis>)
    ensures
        version != INDEX_VERSION ==> r is None,
        version == INDEX_VERSION ==> (r is Some <==> decode_index(views_of(fields@)) is Some),
        r is Some ==> Some(r->Some_0@) == decode_index(views_of(fields@)),
{
    if version != INDEX_VERSION {
        return None;
    }
    let name = get_str(fields, 0)?;
    let mfunc_kind = get_str(fields, 1)?;
    let data_dim = get_size(fields, 2)?;
    let m = get_size(fields, 3)?;
    let m_max = get_size(fields, 4)?;
    let m_max_0 = get_size(fields, 5)?;
    let ef_construction = get_size(fields, 6)?;
    let level_mult = get_double(fields, 7)?;
    let node_count = get_size(fields, 8)?;
    let max_layer = get_size(fields, 9)?;
    let layer_count = get_size(fields, 10)?;
    let (layers, after_layers) = get_groups(fields, 11, layer_count)?;
    let (nodes, after_nodes) = get_group(fields, after_layers)?;
    let entry = get_str(fields, after_nodes)?;
    let enterpoint = if entry == String::from_str("null") {
        None
    } else {
        Some(entry)
    };
    Some(
        IndexRedis {
            name,
            mfunc_kind,
            data_dim,
            m,
            m_max,
            m_max_0,
            ef_construction,
            level_mult,
            node_count,
            max_layer,
            layers,
            nodes,
            enterpoint,
        },
    )
}

/// Writes a node record as the fields of the host's stream.
pub fn save_node(node: &NodeRedis) -> (out: Vec<Field>)
    ensures
        views_of(out@) == node_fields(node@),
{
    let mut out: Vec<Field> = Vec::new();
    out.push(Field::Unsigned(node.data.len() as u64));
    let mut i: usize = 0;
    while i < node.data.len()
        invariant
            i <= node.data@.len(),
            views_of(out@) == seq![FieldView::Unsigned(node.data@.len() as u64)] + floats_fields(
                node.data@.take(i as int),
            ),
        decreases node.data@.len() - i,
    {
        let ghost before = views_of(out@);
        out.push(Field::Float(node.data[i]));
        proof {
            assert(views_of(out@) =~= before.push(FieldView::Float(node.data@[i as int])));
            assert(floats_fields(node.data@.take(i + 1)) =~= floats_fields(
                node.data@.take(i as int),
            ).push(FieldView::Float(node.data@[i as int])));
            assert(views_of(out@) =~= seq![FieldView::Unsigned(node.data@.len() as u64)]
                + floats_fields(node.data@.take(i + 1)));
        }
        i = i + 1;
    }
    let ghost before = views_of(out@);
    out.push(Field::Unsigned(node.neighbors.len() as u64));
    proof {
        assert(node.data@.take(node.data@.len() as int) =~= node.data@);
        assert(views_of(out@) =~= before.push(
            FieldView::Unsigned(node.neighbors@.len() as u64),
        ));
    }
    put_groups(&mut out, &node.neighbors);
    proof {
        assert(views_of(out@) =~= node_fields(node@));
    }
    out
}

/// Reads a node record back from the fields of the host's stream. A stream
/// of another version, or one that holds no node record, gives nothing.
pub fn load_node(fields: &Vec<Field>, version: i32) -> (r: Option<NodeRedis>)
    ensures
        version != NODE_VERSION ==> r is None,
        version == NODE_VERSION ==> (r is Some <==> decode_node(views_of(fields@)) is Some),
        r is Some ==> Some(r->Some_0@) == decode_node(views_of(fields@)),
{
    if version != NODE_VERSION {
        return None;
    }
    let dim = get_size(fields, 0)?;
    let data = get_floats(fields, 1, dim)?;
    proof {
        lemma_floats_by_place(views_of(fields@), 1, dim as nat);
        if dim > 0 {
            assert(read_float(views_of(fields@), 1 + (dim - 1)) is Some);
        }
    }
    if dim >= fields.len() {
        proof {
            assert(read_size(views_of(fields@), 1 + dim) is None);
        }
        return None;
    }
    let count = get_size(fields, 1 + dim)?;
    let (neighbors, after) = get_groups(fields, 2 + dim, count)?;
    Some(NodeRedis { data, neighbors })
}

} // verus!
