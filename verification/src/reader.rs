use crate::fields::floats_fields;
use crate::fields::group_fields;
use crate::fields::groups_fields;
use crate::fields::read_size;
use crate::fields::views_of;
use crate::fields::Field;
use crate::fields::FieldView;
use crate::records::entry_text;
use crate::records::index_fields;
use crate::records::index_head;
use crate::records::lists_fit;
use crate::records::node_fields;
use crate::records::IndexRedisView;
use crate::records::NodeRedisView;
use vstd::prelude::*;

verus! {

/// What is to be read next from the host's stream while a record comes in:
/// a field of one kind, or nothing more. `Stuck` says that what has come in
/// is the beginning of no record.
#[derive(Copy, Clone, Debug, PartialEq, Eq, Structural)]
pub enum Want {
    Str,
    Unsigned,
    Double,
    Float,
    Done,
    Stuck,
}

/// The kind of a field.
pub open spec fn kind_of(f: FieldView) -> Want {
    match f {
        FieldView::Str(_) => Want::Str,
        FieldView::Unsigned(_) => Want::Unsigned,
        FieldView::Double(_) => Want::Double,
        FieldView::Float(_) => Want::Float,
    }
}

/// Where a step over lists of strings comes to: the place after them, or
/// the kind of field that is missing.
pub enum Skip {
    At(int),
    Need(Want),
}

/// The step over the list that begins at a place of a stream.
pub open spec fn skip_group(f: Seq<FieldView>, pos: int) -> Skip {
    if pos >= f.len() {
        Skip::Need(Want::Unsigned)
    } else {
        match read_size(f, pos) {
            None => Skip::Need(Want::Stuck),
            Some(k) => if pos + 1 + k <= f.len() {
                Skip::At(pos + 1 + k)
            } else {
                Skip::Need(Want::Str)
            },
        }
    }
}

/// The step over `n` lists from a place of a stream on.
pub open spec fn skip_groups(f: Seq<FieldView>, pos: int, n: nat) -> Skip
    decreases n,
{
    if n == 0 {
        Skip::At(pos)
    } else {
        match skip_groups(f, pos, (n - 1) as nat) {
            Skip::At(p) => skip_group(f, p),
            Skip::Need(w) => Skip::Need(w),
        }
    }
}

/// What is to be read next while the header of an index comes in.
pub open spec fn index_want_of(f: Seq<FieldView>) -> Want {
    if f.len() < 2 {
        Want::Str
    } else if f.len() < 7 {
        Want::Unsigned
    } else if f.len() == 7 {
        Want::Double
    } else if f.len() < 11 {
        Want::Unsigned
    } else {
        match read_size(f, 10) {
            None => Want::Stuck,
            Some(count) => match skip_groups(f, 11, count as nat) {
                Skip::Need(w) => w,
                Skip::At(p) => match skip_group(f, p) {
                    Skip::Need(w) => w,
                    Skip::At(after) => if after >= f.len() {
                        Want::Str
                    } else {
                        Want::Done
                    },
                },
            },
        }
    }
}

/// What is to be read next while the record of a node comes in.
pub open spec fn node_want_of(f: Seq<FieldView>) -> Want {
    if f.len() == 0 {
        Want::Unsigned
    } else {
        match read_size(f, 0) {
            None => Want::Stuck,
            Some(dim) => if f.len() < 1 + dim {
                Want::Float
            } else if f.len() == 1 + dim {
                Want::Unsigned
            } else {
                match read_size(f, 1 + dim) {
                    None => Want::Stuck,
                    Some(count) => match skip_groups(f, 2 + dim, count as nat) {
                        Skip::Need(w) => w,
                        Skip::At(_) => Want::Done,
                    },
                }
            },
        }
    }
}

/// The length at a place of a stream.
fn size_at(fields: &Vec<Field>, pos: usize) -> (r: Option<usize>)
    ensures
        r == read_size(views_of(fields@), pos as int),
{
    if pos < fields.len() {
        match &fields[pos] {
            Field::Unsigned(n) => if *n <= usize::MAX as u64 {
                Some(*n as usize)
            } else {
                None
            },
            _ => None,
        }
    } else {
        None
    }
}

/// Steps over the list that begins at a place of a stream: the place after
/// it, or the kind of field that is missing.
fn step_group(fields: &Vec<Field>, pos: usize) -> (r: Result<usize, Want>)
    ensures
        match r {
            Ok(p) => skip_group(views_of(fields@), pos as int) == Skip::At(p as int) && p
                <= fields@.len() && p > pos,
            Err(w) => skip_group(views_of(fields@), pos as int) == Skip::Need(w),
        },
{
    let len = fields.len();
    if pos >= len {
        return Err(Want::Unsigned);
    }
    match size_at(fields, pos) {
        None => Err(Want::Stuck),
        Some(k) => if k <= len - pos - 1 {
            Ok(pos + 1 + k)
        } else {
            Err(Want::Str)
        },
    }
}

/// Steps over `n` lists from a place of a stream on.
fn step_groups(fields: &Vec<Field>, pos: usize, n: usize) -> (r: Result<usize, Want>)
    requires
        pos <= fields@.len(),
    ensures
        match r {
            Ok(p) => skip_groups(views_of(fields@), pos as int, n as nat) == Skip::At(p as int)
                && p <= fields@.len(),
            Err(w) => skip_groups(views_of(fields@), pos as int, n as nat) == Skip::Need(w),
        },
{
    let mut cur = pos;
    let mut g: usize = 0;
    while g < n
        invariant
            g <= n,
            cur <= fields@.len(),
            skip_groups(views_of(fields@), pos as int, g as nat) == Skip::At(cur as int),
        decreases n - g,
    {
        match step_group(fields, cur) {
            Ok(p) => {
                cur = p;
            },
            Err(w) => {
                proof {
                    lemma_need_stays(views_of(fields@), pos as int, (g + 1) as nat, n as nat);
                }
                return Err(w);
            },
        }
        g = g + 1;
    }
    Ok(cur)
}

/// Once a field is missing, it is missing for every further list.
proof fn lemma_need_stays(f: Seq<FieldView>, pos: int, g: nat, n: nat)
    requires
        g <= n,
        skip_groups(f, pos, g) is Need,
    ensures
        skip_groups(f, pos, n) == skip_groups(f, pos, g),
    decreases n,
{
    if g < n {
        lemma_need_stays(f, pos, g, (n - 1) as nat);
    }
}

/// What is to be read next while the header of an index comes in, from the
/// fields that have come in so far.
pub fn index_want(fields: &Vec<Field>) -> (w: Want)
    ensures
        w == index_want_of(views_of(fields@)),
{
    let len = fields.len();
    if len < 2 {
        return Want::Str;
    }
    if len < 7 {
        return Want::Unsigned;
    }
    if len == 7 {
        return Want::Double;
    }
    if len < 11 {
        return Want::Unsigned;
    }
    let count = match size_at(fields, 10) {
        Some(count) => count,
        None => {
            return Want::Stuck;
        },
    };
    let p = match step_groups(fields, 11, count) {
        Ok(p) => p,
        Err(w) => {
            return w;
        },
    };
    match step_group(fields, p) {
        Err(w) => w,
        Ok(after) => if after >= len {
            Want::Str
        } else {
            Want::Done
        },
    }
}

/// What is to be read next while the record of a node comes in, from the
/// fields that have come in so far.
pub fn node_want(fields: &Vec<Field>) -> (w: Want)
    ensures
        w == node_want_of(views_of(fields@)),
{
    let len = fields.len();
    if len == 0 {
        return Want::Unsigned;
    }
    let dim = match size_at(fields, 0) {
        Some(dim) => dim,
        None => {
            return Want::Stuck;
        },
    };
    if len - 1 < dim {
        return Want::Float;
    }
    if len - 1 == dim {
        return Want::Unsigned;
    }
    let count = match size_at(fields, 1 + dim) {
        Some(count) => count,
        None => {
            return Want::Stuck;
        },
    };
    match step_groups(fields, 2 + dim, count) {
        Ok(_) => Want::Done,
        Err(w) => w,
    }
}


/// The fields of the first `g` lists are the beginning of the fields of all
/// lists, and the fields of one list more follow them.
proof fn lemma_groups_prefix(groups: Seq<Seq<Seq<char>>>, g: int)
    requires
        0 <= g <= groups.len(),
    ensures
        groups_fields(groups.take(g)).len() <= groups_fields(groups).len(),
        forall|j: int|
            0 <= j < groups_fields(groups.take(g)).len() ==> #[trigger] groups_fields(groups)[j]
                == groups_fields(groups.take(g))[j],
        g < groups.len() ==> groups_fields(groups.take(g + 1)) == groups_fields(groups.take(g))
            + group_fields(groups[g]),
    decreases groups.len() - g,
{
    if g == groups.len() {
        assert(groups.take(g) =~= groups);
    } else {
        lemma_groups_prefix(groups, g + 1);
        let more = groups.take(g + 1);
        assert(more.drop_last() =~= groups.take(g));
        assert(more.last() == groups[g]);
        let part = groups_fields(groups.take(g));
        let whole = groups_fields(more);
        assert(whole == part + group_fields(groups[g]));
        assert forall|j: int| 0 <= j < part.len() implies #[trigger] groups_fields(groups)[j]
            == part[j] by {
            assert(whole[j] == part[j]);
        }
    }
}

/// The step over the first `g` lists of a record of which the first `n`
/// fields have come in: it comes to the place after them if they have come
/// in, and else it asks for the field that comes next.
proof fn lemma_skip_prefix(
    f: Seq<FieldView>,
    n: int,
    start: int,
    groups: Seq<Seq<Seq<char>>>,
    g: int,
)
    requires
        0 <= start <= n <= f.len(),
        0 <= g <= groups.len(),
        forall|i: int| 0 <= i < groups.len() ==> (#[trigger] groups[i]).len() <= usize::MAX,
        start + groups_fields(groups).len() <= f.len(),
        f.subrange(start, start + groups_fields(groups).len()) == groups_fields(groups),
    ensures
        skip_groups(f.take(n), start, g as nat) == if start + groups_fields(groups.take(g)).len()
            <= n {
            Skip::At(start + groups_fields(groups.take(g)).len())
        } else {
            Skip::Need(kind_of(f[n]))
        },
    decreases g,
{
    let p = f.take(n);
    let all = groups_fields(groups);
    if g == 0 {
        assert(groups.take(0) =~= Seq::<Seq<Seq<char>>>::empty());
    } else {
        lemma_skip_prefix(f, n, start, groups, g - 1);
        lemma_groups_prefix(groups, g - 1);
        lemma_groups_prefix(groups, g);
        let before = groups_fields(groups.take(g - 1));
        let one = group_fields(groups[g - 1]);
        let now = groups_fields(groups.take(g));
        assert(now == before + one);
        let b = start + before.len();
        let k = groups[g - 1].len();
        assert(one.len() == k + 1);
        assert forall|i: int| 0 <= i <= k implies f[b + i] == #[trigger] one[i] by {
            assert(f.subrange(start, start + all.len())[before.len() + i] == f[b + i]);
            assert(all[before.len() + i] == now[before.len() + i]);
        }
        assert(one[0] == FieldView::Unsigned(k as u64));
        if b <= n {
            if b < n {
                assert(p[b] == f[b]);
                assert(read_size(p, b) == Some(k as usize));
                if !(b + 1 + k <= n) {
                    let i = n - b;
                    assert(f[b + i] == one[i]);
                    assert(one[i] == crate::fields::strs_fields(groups[g - 1])[i - 1]);
                }
            }
        }
    }
}

/// The reader follows the writer: while the header that was written comes
/// in, the field that is asked for next is of the kind of the field that was
/// written next, and after the last field nothing more is asked for.
pub proof fn law_reader_follows_header(v: IndexRedisView, n: int)
    requires
        lists_fit(v.layers),
        v.nodes.len() <= usize::MAX,
        0 <= n <= index_fields(v).len(),
    ensures
        index_want_of(index_fields(v).take(n)) == if n == index_fields(v).len() {
            Want::Done
        } else {
            kind_of(index_fields(v)[n])
        },
{
    let f = index_fields(v);
    let p = f.take(n);
    let head = index_head(v);
    let lf = groups_fields(v.layers);
    let nf = group_fields(v.nodes);
    assert(head.len() == 11);
    assert forall|i: int| 0 <= i < 11 implies f[i] == head[i] by {}
    if n >= 11 {
        assert(p[10] == f[10]);
        assert(read_size(p, 10) == Some(v.layers.len() as usize));
        assert(f.subrange(11, 11 + lf.len() as int) =~= lf);
        lemma_skip_prefix(f, n, 11, v.layers, v.layers.len() as int);
        assert(v.layers.take(v.layers.len() as int) =~= v.layers);
        let b: int = 11 + lf.len() as int;
        if b <= n {
            let one = seq![v.nodes];
            assert(one.drop_last() =~= Seq::<Seq<Seq<char>>>::empty());
            assert(one.last() == v.nodes);
            assert(groups_fields(one.drop_last()) =~= Seq::<FieldView>::empty());
            assert(groups_fields(one) == groups_fields(one.drop_last()) + group_fields(one.last()));
            assert(groups_fields(one) =~= nf);
            assert(f.subrange(b, b + nf.len() as int) =~= nf);
            lemma_skip_prefix(f, n, b, one, 1);
            assert(one.take(1) =~= one);
            assert(skip_groups(p, b, 1) == skip_group(p, b));
            let last: int = b + nf.len() as int;
            assert(f[last] == FieldView::Str(entry_text(v.enterpoint)));
        }
    }
}

/// The reader follows the writer: while the record of a node that was
/// written comes in, the field that is asked for next is of the kind of the
/// field that was written next, and after the last field nothing more is
/// asked for.
pub proof fn law_reader_follows_node(v: NodeRedisView, n: int)
    requires
        v.data.len() <= usize::MAX,
        lists_fit(v.neighbors),
        0 <= n <= node_fields(v).len(),
    ensures
        node_want_of(node_fields(v).take(n)) == if n == node_fields(v).len() {
            Want::Done
        } else {
            kind_of(node_fields(v)[n])
        },
{
    let f = node_fields(v);
    let p = f.take(n);
    let d = v.data.len() as int;
    let gf = groups_fields(v.neighbors);
    assert(f[0] == FieldView::Unsigned(v.data.len() as u64));
    assert forall|i: int| 0 <= i < d implies f[1 + i] == #[trigger] floats_fields(v.data)[i] by {}
    assert(f[1 + d] == FieldView::Unsigned(v.neighbors.len() as u64));
    if n >= 1 {
        assert(p[0] == f[0]);
        assert(read_size(p, 0) == Some(v.data.len() as usize));
        if n < 1 + d {
            assert(f[n] == floats_fields(v.data)[n - 1]);
        } else if n > 1 + d {
            assert(p[1 + d] == f[1 + d]);
            assert(read_size(p, 1 + d) == Some(v.neighbors.len() as usize));
            assert(f.subrange(2 + d, 2 + d + gf.len() as int) =~= gf);
            lemma_skip_prefix(f, n, 2 + d, v.neighbors, v.neighbors.len() as int);
            assert(v.neighbors.take(v.neighbors.len() as int) =~= v.neighbors);
        }
    }
}

} // verus!
