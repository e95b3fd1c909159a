use vstd::prelude::*;

verus! {

/// One value of a record in the host's snapshot stream. A double stands
/// here as its 64 bits; a float stands as the component of a vector that the
/// host writes as a real of 32 bits.
#[derive(Debug, PartialEq, Clone)]
pub enum Field {
    Str(String),
    Unsigned(u64),
    Double(u64),
    Float(i32),
}

/// What a field holds.
pub enum FieldView {
    Str(Seq<char>),
    Unsigned(u64),
    Double(u64),
    Float(i32),
}

impl View for Field {
    type V = FieldView;

    open spec fn view(&self) -> FieldView {
        match self {
            Field::Str(s) => FieldView::Str(s@),
            Field::Unsigned(n) => FieldView::Unsigned(*n),
            Field::Double(d) => FieldView::Double(*d),
            Field::Float(x) => FieldView::Float(*x),
        }
    }
}

/// What the fields of a stream hold.
pub open spec fn views_of(fields: Seq<Field>) -> Seq<FieldView> {
    Seq::new(fields.len(), |i: int| fields[i]@)
}

/// The fields of a list of strings, one after the other.
pub open spec fn strs_fields(names: Seq<Seq<char>>) -> Seq<FieldView> {
    Seq::new(names.len(), |i: int| FieldView::Str(names[i]))
}

/// The fields of a list of strings with its length before it.
pub open spec fn group_fields(names: Seq<Seq<char>>) -> Seq<FieldView> {
    seq![FieldView::Unsigned(names.len() as u64)] + strs_fields(names)
}

/// The fields of several such lists, one after the other.
pub open spec fn groups_fields(groups: Seq<Seq<Seq<char>>>) -> Seq<FieldView>
    decreases groups.len(),
{
    if groups.len() == 0 {
        Seq::empty()
    } else {
        groups_fields(groups.drop_last()) + group_fields(groups.last())
    }
}

/// The fields of a vector, one after the other.
pub open spec fn floats_fields(data: Seq<i32>) -> Seq<FieldView> {
    Seq::new(data.len(), |i: int| FieldView::Float(data[i]))
}

/// The number at a place of a stream, if a number stands there.
pub open spec fn read_unsigned(f: Seq<FieldView>, pos: int) -> Option<u64> {
    if 0 <= pos < f.len() && f[pos] is Unsigned {
        Some(f[pos]->Unsigned_0)
    } else {
        None
    }
}

/// The number at a place of a stream, if one stands there that a length can
/// hold.
pub open spec fn read_size(f: Seq<FieldView>, pos: int) -> Option<usize> {
    match read_unsigned(f, pos) {
        Some(n) => if n <= usize::MAX {
            Some(n as usize)
        } else {
            None
        },
        None => None,
    }
}

/// The string at a place of a stream, if a string stands there.
pub open spec fn read_str(f: Seq<FieldView>, pos: int) -> Option<Seq<char>> {
    if 0 <= pos < f.len() && f[pos] is Str {
        Some(f[pos]->Str_0)
    } else {
        None
    }
}

/// The double at a place of a stream, if a double stands there.
pub open spec fn read_double(f: Seq<FieldView>, pos: int) -> Option<u64> {
    if 0 <= pos < f.len() && f[pos] is Double {
        Some(f[pos]->Double_0)
    } else {
        None
    }
}

/// The float at a place of a stream, if a float stands there.
pub open spec fn read_float(f: Seq<FieldView>, pos: int) -> Option<i32> {
    if 0 <= pos < f.len() && f[pos] is Float {
        Some(f[pos]->Float_0)
    } else {
        None
    }
}

/// The `n` strings from a place of a stream on, if `n` strings stand there.
pub open spec fn read_strs(f: Seq<FieldView>, pos: int, n: nat) -> Option<Seq<Seq<char>>>
    decreases n,
{
    if n == 0 {
        Some(Seq::empty())
    } else {
        match read_strs(f, pos, (n - 1) as nat) {
            Some(names) => match read_str(f, pos + n - 1) {
                Some(name) => Some(names.push(name)),
                None => None,
            },
            None => None,
        }
    }
}

/// The `n` floats from a place of a stream on, if `n` floats stand there.
pub open spec fn read_floats(f: Seq<FieldView>, pos: int, n: nat) -> Option<Seq<i32>>
    decreases n,
{
    if n == 0 {
        Some(Seq::empty())
    } else {
        match read_floats(f, pos, (n - 1) as nat) {
            Some(data) => match read_float(f, pos + n - 1) {
                Some(x) => Some(data.push(x)),
                None => None,
            },
            None => None,
        }
    }
}

/// The list of strings that stands at a place of a stream with its length
/// before it, and the place after it.
pub open spec fn read_group(f: Seq<FieldView>, pos: int) -> Option<(Seq<Seq<char>>, int)> {
    match read_size(f, pos) {
        Some(n) => match read_strs(f, pos + 1, n as nat) {
            Some(names) => Some((names, pos + 1 + n)),
            None => None,
        },
        None => None,
    }
}

/// The `n` such lists from a place of a stream on, and the place after them.
pub open spec fn read_groups(f: Seq<FieldView>, pos: int, n: nat) -> Option<
    (Seq<Seq<Seq<char>>>, int),
>
    decreases n,
{
    if n == 0 {
        Some((Seq::empty(), pos))
    } else {
        match read_groups(f, pos, (n - 1) as nat) {
            Some((groups, next)) => match read_group(f, next) {
                Some((names, after)) => Some((groups.push(names), after)),
                None => None,
            },
            None => None,
        }
    }
}

/// Reading strings back where strings were written gives the strings.
pub proof fn lemma_read_strs(f: Seq<FieldView>, pos: int, names: Seq<Seq<char>>, n: nat)
    requires
        0 <= pos,
        n <= names.len(),
        pos + names.len() <= f.len(),
        forall|i: int| 0 <= i < names.len() ==> f[pos + i] == FieldView::Str(#[trigger] names[i]),
    ensures
        read_strs(f, pos, n) == Some(names.take(n as int)),
    decreases n,
{
    if n > 0 {
        lemma_read_strs(f, pos, names, (n - 1) as nat);
        assert(f[pos + (n - 1)] == FieldView::Str(names[n - 1]));
        assert(names.take(n as int) == names.take(n - 1).push(names[n - 1]));
    } else {
        assert(names.take(0) == Seq::<Seq<char>>::empty());
    }
}

/// Reading floats back where floats were written gives the floats.
pub proof fn lemma_read_floats(f: Seq<FieldView>, pos: int, data: Seq<i32>, n: nat)
    requires
        0 <= pos,
        n <= data.len(),
        pos + data.len() <= f.len(),
        forall|i: int| 0 <= i < data.len() ==> f[pos + i] == FieldView::Float(#[trigger] data[i]),
    ensures
        read_floats(f, pos, n) == Some(data.take(n as int)),
    decreases n,
{
    if n > 0 {
        lemma_read_floats(f, pos, data, (n - 1) as nat);
        assert(f[pos + (n - 1)] == FieldView::Float(data[n - 1]));
        assert(data.take(n as int) == data.take(n - 1).push(data[n - 1]));
    } else {
        assert(data.take(0) == Seq::<i32>::empty());
    }
}

/// Reading a list back where a list was written gives the list.
pub proof fn lemma_read_group(f: Seq<FieldView>, pos: int, names: Seq<Seq<char>>)
    requires
        0 <= pos,
        names.len() <= usize::MAX,
        pos + group_fields(names).len() <= f.len(),
        f.subrange(pos, pos + group_fields(names).len()) == group_fields(names),
    ensures
        read_group(f, pos) == Some((names, pos + 1 + names.len())),
{
    let g = group_fields(names);
    let part = f.subrange(pos, pos + g.len());
    assert(g.len() == names.len() + 1);
    assert(f[pos] == part[0]);
    assert(g[0] == FieldView::Unsigned(names.len() as u64));
    assert forall|i: int| 0 <= i < names.len() implies f[pos + 1 + i] == FieldView::Str(
        #[trigger] names[i],
    ) by {
        assert(f[pos + 1 + i] == part[1 + i]);
        assert(g[1 + i] == strs_fields(names)[i]);
    }
    lemma_read_strs(f, pos + 1, names, names.len());
    assert(names.take(names.len() as int) == names);
}

/// Reading lists back where lists were written gives the lists.
pub proof fn lemma_read_groups(f: Seq<FieldView>, pos: int, groups: Seq<Seq<Seq<char>>>)
    requires
        0 <= pos,
        forall|i: int| 0 <= i < groups.len() ==> (#[trigger] groups[i]).len() <= usize::MAX,
        pos + groups_fields(groups).len() <= f.len(),
        f.subrange(pos, pos + groups_fields(groups).len()) == groups_fields(groups),
    ensures
        read_groups(f, pos, groups.len()) == Some((groups, pos + groups_fields(groups).len())),
    decreases groups.len(),
{
    if groups.len() > 0 {
        let head = groups.drop_last();
        let last = groups.last();
        let hf = groups_fields(head);
        let gf = group_fields(last);
        let all = groups_fields(groups);
        assert(all == hf + gf);
        let part = f.subrange(pos, pos + all.len());
        assert(f.subrange(pos, pos + hf.len()) == hf) by {
            assert(f.subrange(pos, pos + hf.len()) =~= part.subrange(0, hf.len() as int));
            assert(part.subrange(0, hf.len() as int) =~= hf);
        }
        assert forall|i: int| 0 <= i < head.len() implies (#[trigger] head[i]).len()
            <= usize::MAX by {
            assert(head[i] == groups[i]);
        }
        lemma_read_groups(f, pos, head);
        let next = pos + hf.len();
        assert(f.subrange(next, next + gf.len()) == gf) by {
            assert(f.subrange(next, next + gf.len()) =~= part.subrange(
                hf.len() as int,
                all.len() as int,
            ));
            assert(part.subrange(hf.len() as int, all.len() as int) =~= gf);
        }
        lemma_read_group(f, next, last);
        assert(head.push(last) == groups);
    } else {
        assert(groups == Seq::<Seq<Seq<char>>>::empty());
    }
}

} // verus!
