use crate::index::Index;
use crate::model::add_edge;
use crate::model::del_edge;
use crate::model::first_index;
use crate::model::linked_lists;
use crate::model::unlinked_lists;
use crate::index::lemma_live_upto_same;
use vstd::prelude::*;

verus! {

/// What a list holds after one more element.
pub(crate) proof fn lemma_push_list(s: Seq<usize>, x: usize)
    ensures
        forall|y: usize| s.push(x).contains(y) <==> (s.contains(y) || y == x),
        s.no_duplicates() && !s.contains(x) ==> s.push(x).no_duplicates(),
{
    let t = s.push(x);
    assert forall|y: usize| t.contains(y) <==> (s.contains(y) || y == x) by {
        if s.contains(y) {
            let i = choose|i: int| 0 <= i < s.len() && s[i] == y;
            assert(t[i] == y);
        }
        if y == x {
            assert(t[s.len() as int] == y);
        }
        if t.contains(y) {
            let i = choose|i: int| 0 <= i < t.len() && t[i] == y;
            if i < s.len() {
                assert(s[i] == y);
            }
        }
    }
}

/// What a list without duplicates holds after one element has left.
pub(crate) proof fn lemma_remove_list(s: Seq<usize>, k: int)
    requires
        0 <= k < s.len(),
        s.no_duplicates(),
    ensures
        forall|y: usize| s.remove(k).contains(y) <==> (s.contains(y) && y != s[k]),
        s.remove(k).no_duplicates(),
        s.remove(k).len() == s.len() - 1,
{
    let t = s.remove(k);
    assert forall|y: usize| t.contains(y) <==> (s.contains(y) && y != s[k]) by {
        if t.contains(y) {
            let i = choose|i: int| 0 <= i < t.len() && t[i] == y;
            if i < k {
                assert(s[i] == y);
            } else {
                assert(s[i + 1] == y);
            }
        }
        if s.contains(y) && y != s[k] {
            let i = choose|i: int| 0 <= i < s.len() && s[i] == y;
            if i < k {
                assert(t[i] == y);
            } else {
                assert(t[i - 1] == y);
            }
        }
    }
    assert forall|i: int, j: int| 0 <= i < t.len() && 0 <= j < t.len() && i != j implies t[i]
        != t[j] by {
        let a = if i < k { i } else { i + 1 };
        let b = if j < k { j } else { j + 1 };
        assert(s[a] != s[b]);
    }
}

/// A list without duplicates, all of whose elements stand in another list, is
/// no longer than that list.
pub(crate) proof fn lemma_subset_len(s: Seq<usize>, t: Seq<usize>)
    requires
        s.no_duplicates(),
        forall|i: int| 0 <= i < s.len() ==> t.contains(#[trigger] s[i]),
    ensures
        s.len() <= t.len(),
{
    s.unique_seq_to_set();
    t.lemma_cardinality_of_set();
    assert(s.to_set().subset_of(t.to_set())) by {
        assert forall|x: usize| s.to_set().contains(x) implies t.to_set().contains(x) by {
            let i = choose|i: int| 0 <= i < s.len() && s[i] == x;
            assert(t.contains(s[i]));
        }
    }
    vstd::set_lib::lemma_len_subset(s.to_set(), t.to_set());
}

impl Index {
    /// Whether this index differs from `old` in one list at most: that of the
    /// node in slot `a` on layer `l`.
    pub open(crate) spec fn same_but_list(&self, old: &Index, a: int, l: int) -> bool {
        &&& self.same_but_lists(old)
        &&& forall|i: int, k: int|
            0 <= i < self.nodes@.len() && 0 <= k < self.levels(i) && !(i == a && k == l)
                ==> #[trigger] self.adj(i, k) == old.adj(i, k)
    }

    /// Whether this index differs from `old` in two lists at most: those of
    /// the nodes in slots `a` and `b` on layer `l`.
    pub open(crate) spec fn same_but_pair(&self, old: &Index, a: int, b: int, l: int) -> bool {
        &&& self.same_but_lists(old)
        &&& forall|i: int, k: int|
            0 <= i < self.nodes@.len() && 0 <= k < self.levels(i) && !((i == a || i == b) && k
                == l) ==> #[trigger] self.adj(i, k) == old.adj(i, k)
    }

    /// A copy of one adjacency list.
    pub(crate) fn copy_list(&self, i: usize, l: usize) -> (r: Vec<usize>)
        requires
            self.on_layer(i as int, l as int),
        ensures
            r@ == self.adj(i as int, l as int),
    {
        let mut r: Vec<usize> = Vec::new();
        let mut k: usize = 0;
        while k < self.nodes[i].neighbors[l].len()
            invariant
                self.on_layer(i as int, l as int),
                k <= self.adj(i as int, l as int).len(),
                r@ == self.adj(i as int, l as int).take(k as int),
            decreases self.adj(i as int, l as int).len() - k,
        {
            r.push(self.nodes[i].neighbors[l][k]);
            assert(self.adj(i as int, l as int).take(k + 1) == self.adj(i as int, l as int).take(
                k as int,
            ).push(self.adj(i as int, l as int)[k as int]));
            k = k + 1;
        }
        assert(self.adj(i as int, l as int).take(k as int) == self.adj(i as int, l as int));
        r
    }

    /// Where slot `j` stands in one adjacency list, if it does.
    pub(crate) fn position(&self, i: usize, l: usize, j: usize) -> (r: Option<usize>)
        requires
            self.on_layer(i as int, l as int),
        ensures
            r is Some <==> self.adj(i as int, l as int).contains(j),
            r is Some ==> r->Some_0 < self.adj(i as int, l as int).len() && self.adj(
                i as int,
                l as int,
            )[r->Some_0 as int] == j,
            r is Some ==> r->Some_0 == first_index(self.adj(i as int, l as int), j, 0),
    {
        let mut k: usize = 0;
        while k < self.nodes[i].neighbors[l].len()
            invariant
                self.on_layer(i as int, l as int),
                k <= self.adj(i as int, l as int).len(),
                forall|t: int| 0 <= t < k ==> self.adj(i as int, l as int)[t] != j,
                first_index(self.adj(i as int, l as int), j, 0) == first_index(
                    self.adj(i as int, l as int),
                    j,
                    k as int,
                ),
            decreases self.adj(i as int, l as int).len() - k,
        {
            if self.nodes[i].neighbors[l][k] == j {
                return Some(k);
            }
            k = k + 1;
        }
        None
    }

    /// Appends slot `b` to the list of slot `a` on layer `l`, and nothing
    /// more: the edge back is the caller's to add.
    pub(crate) fn push_edge(&mut self, a: usize, l: usize, b: usize)
        requires
            old(self).on_layer(a as int, l as int),
        ensures
            final(self).same_but_list(old(self), a as int, l as int),
            final(self).adj(a as int, l as int) == old(self).adj(a as int, l as int).push(b),
            final(self).lists() == add_edge(old(self).lists(), a as int, l as int, b),
    {
        self.nodes[a].neighbors[l].push(b);
        proof {
            assert(self.lists() =~~= add_edge(old(self).lists(), a as int, l as int, b));
        }
    }

    /// Takes the element at place `k` out of the list of slot `a` on layer
    /// `l`, and nothing more.
    pub(crate) fn drop_edge(&mut self, a: usize, l: usize, k: usize)
        requires
            old(self).on_layer(a as int, l as int),
            k < old(self).adj(a as int, l as int).len(),
        ensures
            final(self).same_but_list(old(self), a as int, l as int),
            final(self).adj(a as int, l as int) == old(self).adj(a as int, l as int).remove(
                k as int,
            ),
            final(self).lists() == del_edge(old(self).lists(), a as int, l as int, k as int),
    {
        self.nodes[a].neighbors[l].remove(k);
        proof {
            assert(self.lists() =~~= del_edge(old(self).lists(), a as int, l as int, k as int));
        }
    }

    /// Joins two nodes on a layer, in both directions.
    pub(crate) fn link(&mut self, a: usize, b: usize, l: usize)
        requires
            old(self).wf_but_caps(),
            old(self).on_layer(a as int, l as int),
            old(self).on_layer(b as int, l as int),
            a != b,
            !old(self).adj(a as int, l as int).contains(b),
        ensures
            final(self).wf_but_caps(),
            final(self).same_but_pair(old(self), a as int, b as int, l as int),
            final(self).adj(a as int, l as int) == old(self).adj(a as int, l as int).push(b),
            final(self).adj(b as int, l as int) == old(self).adj(b as int, l as int).push(a),
            final(self).lists() == linked_lists(old(self).lists(), a as int, b as int, l as int),
    {
        proof {
            assert(old(self).node_ok(a as int));
            assert(old(self).node_ok(b as int));
            assert(old(self).list_ok(a as int, l as int));
            assert(old(self).list_ok(b as int, l as int));
            if old(self).adj(b as int, l as int).contains(a) {
                let k = choose|k: int|
                    0 <= k < old(self).adj(b as int, l as int).len() && old(self).adj(
                        b as int,
                        l as int,
                    )[k] == a;
                assert(old(self).edge_ok(
                    b as int,
                    l as int,
                    old(self).adj(b as int, l as int)[k] as int,
                ));
            }
        }
        self.push_edge(a, l, b);
        let ghost mid = *self;
        self.push_edge(b, l, a);
        proof {
            let o = old(self);
            lemma_push_list(o.adj(a as int, l as int), b);
            lemma_push_list(o.adj(b as int, l as int), a);
            assert(self.adj(a as int, l as int) == mid.adj(a as int, l as int));
            assert forall|i: int| 0 <= i < self.nodes@.len() implies #[trigger] self.node_ok(
                i,
            ) by {
                assert(o.node_ok(i));
                if self.nodes@[i].live {
                    assert forall|l2: int| 0 <= l2 < self.levels(i) implies #[trigger] self.list_ok(
                        i,
                        l2,
                    ) by {
                        assert(o.list_ok(i, l2));
                        let s = self.adj(i, l2);
                        let os = o.adj(i, l2);
                        assert(s == mid.adj(i, l2) || (i == b && l2 == l));
                        assert forall|k: int| 0 <= k < s.len() implies self.edge_ok(
                            i,
                            l2,
                            #[trigger] s[k] as int,
                        ) by {
                            let j = s[k] as int;
                            if k < os.len() {
                                assert(s[k] == os[k]);
                                assert(o.edge_ok(i, l2, os[k] as int));
                                assert(o.adj(j, l2).contains(i as usize));
                                if (j == a || j == b) && l2 == l {
                                } else {
                                    assert(self.adj(j, l2) == mid.adj(j, l2));
                                    assert(self.adj(j, l2) == o.adj(j, l2));
                                }
                            } else {
                            }
                        }
                    }
                }
            }
            lemma_live_upto_same(o.nodes@, self.nodes@, o.nodes@.len());
            assert forall|i: int| self.is_live(i) == o.is_live(i) by {}
        }
    }

    /// Parts two nodes on a layer, in both directions.
    pub(crate) fn unlink(&mut self, a: usize, b: usize, l: usize)
        requires
            old(self).wf_but_caps(),
            old(self).on_layer(a as int, l as int),
            old(self).adj(a as int, l as int).contains(b),
        ensures
            final(self).wf_but_caps(),
            final(self).same_but_pair(old(self), a as int, b as int, l as int),
            final(self).adj(a as int, l as int).len() == old(self).adj(a as int, l as int).len()
                - 1,
            final(self).adj(b as int, l as int).len() == old(self).adj(b as int, l as int).len()
                - 1,
            forall|y: usize|
                final(self).adj(a as int, l as int).contains(y) <==> (old(self).adj(
                    a as int,
                    l as int,
                ).contains(y) && y != b),
            forall|y: usize|
                final(self).adj(b as int, l as int).contains(y) <==> (old(self).adj(
                    b as int,
                    l as int,
                ).contains(y) && y != a),
            final(self).lists() == unlinked_lists(old(self).lists(), a as int, b as int, l as int),
    {
        let ka = self.position(a, l, b).unwrap();
        proof {
            assert(old(self).node_ok(a as int));
            assert(old(self).list_ok(a as int, l as int));
            assert(old(self).edge_ok(
                a as int,
                l as int,
                old(self).adj(a as int, l as int)[ka as int] as int,
            ));
            assert(old(self).node_ok(b as int));
            assert(old(self).list_ok(b as int, l as int));
        }
        let kb = self.position(b, l, a).unwrap();
        let n = self.nodes.len();
        self.drop_edge(a, l, ka);
        let ghost mid = *self;
        proof {
            assert(mid.adj(b as int, l as int) == old(self).adj(b as int, l as int));
            assert(mid.lists()[b as int][l as int] == mid.adj(b as int, l as int));
            assert(old(self).lists()[a as int][l as int] == old(self).adj(a as int, l as int));
        }
        self.drop_edge(b, l, kb);
        proof {
            let o = old(self);
            lemma_remove_list(o.adj(a as int, l as int), ka as int);
            lemma_remove_list(o.adj(b as int, l as int), kb as int);
            assert(self.adj(a as int, l as int) == mid.adj(a as int, l as int));
            assert(mid.adj(b as int, l as int) == o.adj(b as int, l as int));
            assert forall|i: int| 0 <= i < self.nodes@.len() implies #[trigger] self.node_ok(
                i,
            ) by {
                assert(o.node_ok(i));
                if self.nodes@[i].live {
                    assert forall|l2: int| 0 <= l2 < self.levels(i) implies #[trigger] self.list_ok(
                        i,
                        l2,
                    ) by {
                        assert(o.list_ok(i, l2));
                        let s = self.adj(i, l2);
                        let os = o.adj(i, l2);
                        if (i == a || i == b) && l2 == l {
                        } else {
                            assert(s == mid.adj(i, l2));
                            assert(s == os);
                        }
                        assert forall|k: int| 0 <= k < s.len() implies self.edge_ok(
                            i,
                            l2,
                            #[trigger] s[k] as int,
                        ) by {
                            let j = s[k] as int;
                            assert(s.contains(s[k]));
                            assert(os.contains(s[k]));
                            let k0 = choose|k0: int| 0 <= k0 < os.len() && os[k0] == s[k];
                            assert(o.edge_ok(i, l2, os[k0] as int));
                            assert(i < n);
                            let iu = i as usize;
                            assert(o.adj(j, l2).contains(iu));
                            if j == a && l2 == l {
                                if i == b {
                                    assert(s == o.adj(b as int, l as int).remove(kb as int));
                                    assert(!s.contains(a));
                                }
                                assert(iu != b);
                                assert(self.adj(a as int, l as int).contains(iu));
                            } else if j == b && l2 == l {
                                if i == a {
                                    assert(s == o.adj(a as int, l as int).remove(ka as int));
                                    assert(!s.contains(b));
                                }
                                assert(iu != a);
                                assert(self.adj(b as int, l as int).contains(iu));
                            } else {
                                assert(self.adj(j, l2) == mid.adj(j, l2));
                                assert(self.adj(j, l2) == o.adj(j, l2));
                            }
                        }
                    }
                }
            }
            lemma_live_upto_same(o.nodes@, self.nodes@, o.nodes@.len());
            assert forall|i: int| self.is_live(i) == o.is_live(i) by {}
        }
    }
}

} // verus!
