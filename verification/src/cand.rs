use vstd::prelude::*;

verus! {

/// A node as a search sees it: its slot and its similarity to the query.
#[derive(Copy, Clone, Debug, PartialEq, Eq, Structural)]
pub struct Cand {
    pub sim: i128,
    pub id: usize,
}

/// The order of the candidate lists: the larger similarity first, and of two
/// equal similarities the node that came into the index first.
pub open spec fn closer(a: Cand, b: Cand) -> bool {
    a.sim > b.sim || (a.sim == b.sim && a.id < b.id)
}

/// A list is sorted when every element is closer than all that follow it.
pub open spec fn sorted(s: Seq<Cand>) -> bool {
    forall|i: int, j: int| 0 <= i < j < s.len() ==> closer(#[trigger] s[i], #[trigger] s[j])
}

/// No slot stands in the list twice.
pub open spec fn distinct_ids(s: Seq<Cand>) -> bool {
    forall|i: int, j: int| 0 <= i < j < s.len() ==> (#[trigger] s[i]).id != (#[trigger] s[j]).id
}

/// Whether a slot stands in the list.
pub open spec fn has_id(s: Seq<Cand>, id: usize) -> bool {
    exists|i: int| 0 <= i < s.len() && (#[trigger] s[i]).id == id
}

/// The first place from `from` on at which a candidate of the list is
/// farther than `c`; the length of the list where none is.
pub open spec fn first_farther(s: Seq<Cand>, c: Cand, from: int) -> int
    decreases s.len() - from,
{
    if from < 0 || from >= s.len() {
        s.len() as int
    } else if closer(c, s[from]) {
        from
    } else {
        first_farther(s, c, from + 1)
    }
}

/// The list with one more candidate: it stands before the first candidate
/// that is farther.
pub open spec fn with_cand(s: Seq<Cand>, c: Cand) -> Seq<Cand> {
    s.insert(first_farther(s, c, 0), c)
}

/// Compares two candidates in the order of the lists.
pub fn is_closer(a: &Cand, b: &Cand) -> (r: bool)
    ensures
        r == closer(*a, *b),
{
    a.sim > b.sim || (a.sim == b.sim && a.id < b.id)
}

/// Puts a candidate into a sorted list, at its place.
pub fn insert_sorted(v: &mut Vec<Cand>, c: Cand) -> (pos: usize)
    requires
        sorted(old(v)@),
        !has_id(old(v)@, c.id),
    ensures
        pos <= old(v)@.len(),
        pos == first_farther(old(v)@, c, 0),
        final(v)@ == old(v)@.insert(pos as int, c),
        final(v)@ == with_cand(old(v)@, c),
        sorted(final(v)@),
        forall|i: int| 0 <= i < pos ==> closer(#[trigger] old(v)@[i], c),
        forall|i: int| pos <= i < old(v)@.len() ==> closer(c, #[trigger] old(v)@[i]),
{
    let mut pos: usize = 0;
    while pos < v.len() && !is_closer(&c, &v[pos])
        invariant
            pos <= v@.len(),
            v@ == old(v)@,
            forall|i: int| 0 <= i < pos ==> !closer(c, #[trigger] v@[i]),
            first_farther(v@, c, 0) == first_farther(v@, c, pos as int),
        decreases v@.len() - pos,
    {
        pos = pos + 1;
    }
    proof {
        assert forall|i: int| 0 <= i < pos implies closer(#[trigger] v@[i], c) by {
            assert(v@[i].id != c.id);
        }
        assert forall|i: int| pos <= i < v@.len() implies closer(c, #[trigger] v@[i]) by {
            if i > pos {
                assert(closer(v@[pos as int], v@[i]));
            }
        }
    }
    v.insert(pos, c);
    proof {
        let old_s = old(v)@;
        let new_s = v@;
        assert forall|i: int, j: int| 0 <= i < j < new_s.len() implies closer(
            #[trigger] new_s[i],
            #[trigger] new_s[j],
        ) by {
            if j < pos {
                assert(closer(old_s[i], old_s[j]));
            } else if j == pos {
                assert(closer(old_s[i], c));
            } else if i < pos {
                assert(closer(old_s[i], old_s[j - 1]));
            } else if i == pos {
                assert(closer(c, old_s[j - 1]));
            } else {
                assert(closer(old_s[i - 1], old_s[j - 1]));
            }
        }
    }
    pos
}

/// What a list holds once a candidate has been put into it.
pub proof fn lemma_insert_ids(s: Seq<Cand>, pos: int, c: Cand)
    requires
        0 <= pos <= s.len(),
    ensures
        forall|id: usize| #[trigger] has_id(s.insert(pos, c), id) <==> (has_id(s, id) || id == c.id),
        distinct_ids(s) && !has_id(s, c.id) ==> distinct_ids(s.insert(pos, c)),
{
    let t = s.insert(pos, c);
    assert forall|id: usize| #[trigger] has_id(t, id) <==> (has_id(s, id) || id == c.id) by {
        if has_id(t, id) {
            let i = choose|i: int| 0 <= i < t.len() && (#[trigger] t[i]).id == id;
            if i < pos {
                assert(s[i].id == id);
            } else if i > pos {
                assert(s[i - 1].id == id);
            }
        }
        if has_id(s, id) {
            let i = choose|i: int| 0 <= i < s.len() && (#[trigger] s[i]).id == id;
            if i < pos {
                assert(t[i].id == id);
            } else {
                assert(t[i + 1].id == id);
            }
        }
        if id == c.id {
            assert(t[pos].id == id);
        }
    }
    if distinct_ids(s) && !has_id(s, c.id) {
        assert forall|i: int, j: int| 0 <= i < j < t.len() implies (#[trigger] t[i]).id != (
        #[trigger] t[j]).id by {
            let a = if i < pos { i } else { i - 1 };
            let b = if j < pos { j } else { j - 1 };
            if i != pos && j != pos {
                assert(s[a].id != s[b].id);
            } else if i == pos {
                assert(s[b].id == t[j].id);
            } else {
                assert(s[a].id == t[i].id);
            }
        }
    }
}

/// What a list holds once its last candidate has been taken off.
pub proof fn lemma_drop_last_ids(s: Seq<Cand>)
    requires
        s.len() > 0,
        distinct_ids(s),
    ensures
        distinct_ids(s.drop_last()),
        sorted(s) ==> sorted(s.drop_last()),
        forall|id: usize|
            #[trigger] has_id(s.drop_last(), id) <==> (has_id(s, id) && id != s.last().id),
{
    let t = s.drop_last();
    assert forall|id: usize| #[trigger] has_id(t, id) <==> (has_id(s, id) && id != s.last().id) by {
        if has_id(t, id) {
            let i = choose|i: int| 0 <= i < t.len() && (#[trigger] t[i]).id == id;
            assert(s[i].id == id);
            assert(s[i].id != s[s.len() - 1].id);
        }
        if has_id(s, id) && id != s.last().id {
            let i = choose|i: int| 0 <= i < s.len() && (#[trigger] s[i]).id == id;
            assert(t[i].id == id);
        }
    }
    assert forall|i: int, j: int| 0 <= i < j < t.len() implies (#[trigger] t[i]).id != (
    #[trigger] t[j]).id by {
        assert(s[i].id != s[j].id);
    }
    if sorted(s) {
        assert forall|i: int, j: int| 0 <= i < j < t.len() implies closer(
            #[trigger] t[i],
            #[trigger] t[j],
        ) by {
            assert(closer(s[i], s[j]));
        }
    }
}

} // verus!
