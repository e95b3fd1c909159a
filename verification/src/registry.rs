use crate::error::Error;
use crate::index::Index;
use crate::kann::SearchResult;
use crate::records::IndexRedis;
use crate::records::NodeRedis;
use crate::restore::make_index;
use crate::restore::records_of;
use crate::restore::restorable;
use vstd::prelude::*;

verus! {

/// The indexes of one process, each under its name. The registry holds the
/// handles; what locks them and what reads the host is around it.
pub struct Registry {
    pub(crate) entries: Vec<Index>,
}

impl Registry {
    /// The number of indexes.
    pub open(crate) spec fn count(&self) -> int {
        self.entries@.len() as int
    }

    /// The indexes, in the order in which they came in.
    pub open(crate) spec fn all(&self) -> Seq<Index> {
        self.entries@
    }

    /// The index at a place of the registry.
    pub open(crate) spec fn at(&self, i: int) -> Index {
        self.entries@[i]
    }

    /// Whether an index goes by the name.
    pub open(crate) spec fn has_index(&self, name: Seq<char>) -> bool {
        exists|i: int| 0 <= i < self.entries@.len() && (#[trigger] self.entries@[i]).name@ == name
    }

    /// The place of the index that goes by the name.
    pub open(crate) spec fn place_of(&self, name: Seq<char>) -> int {
        choose|i: int| 0 <= i < self.entries@.len() && (#[trigger] self.entries@[i]).name@ == name
    }

    /// What holds of a registry between two operations: of each index holds
    /// what holds of an index, and no two go by one name.
    pub open(crate) spec fn wf(&self) -> bool {
        &&& forall|i: int| 0 <= i < self.entries@.len() ==> (#[trigger] self.entries@[i]).wf()
        &&& forall|i: int, j: int|
            0 <= i < j < self.entries@.len() ==> (#[trigger] self.entries@[i]).name@ != (
            #[trigger] self.entries@[j]).name@
    }

    /// Whether this registry is `old` but for the index at place `i`.
    pub open(crate) spec fn same_but(&self, old: &Registry, i: int) -> bool {
        &&& self.entries@.len() == old.entries@.len()
        &&& forall|j: int|
            0 <= j < self.entries@.len() && j != i ==> #[trigger] self.entries@[j]
                == old.entries@[j]
    }

    /// An empty registry.
    pub fn new() -> (r: Registry)
        ensures
            r.wf(),
            r.count() == 0,
    {
        Registry { entries: Vec::new() }
    }

    /// The number of indexes.
    pub fn len(&self) -> (n: usize)
        ensures
            n == self.count(),
    {
        self.entries.len()
    }

    /// The place of the index that goes by `name`, if there is one.
    pub fn position(&self, name: &str) -> (r: Option<usize>)
        requires
            self.wf(),
        ensures
            r is Some <==> self.has_index(name@),
            r is Some ==> r->Some_0 == self.place_of(name@) && r->Some_0 < self.count(),
    {
        let key = String::from_str(name);
        let mut i: usize = 0;
        while i < self.entries.len()
            invariant
                self.wf(),
                key@ == name@,
                i <= self.entries@.len(),
                forall|j: int| 0 <= j < i ==> (#[trigger] self.entries@[j]).name@ != name@,
            decreases self.entries@.len() - i,
        {
            if self.entries[i].name == key {
                proof {
                    let p = self.place_of(name@);
                    assert(self.entries@[i as int].name@ == name@);
                    assert(0 <= p < self.entries@.len() && self.entries@[p].name@ == name@);
                    if p < i {
                        assert(self.entries@[p].name@ != self.entries@[i as int].name@);
                    } else if p > i {
                        assert(self.entries@[i as int].name@ != self.entries@[p].name@);
                    }
                }
                return Some(i);
            }
            i = i + 1;
        }
        None
    }

    /// The index at a place.
    pub fn get(&self, i: usize) -> (r: &Index)
        requires
            self.wf(),
            i < self.count(),
        ensures
            *r == self.at(i as int),
            r.wf(),
    {
        &self.entries[i]
    }

    /// Takes a new index in. A name that an index of the registry goes by
    /// already exists, and the registry stays as it was.
    pub fn insert(&mut self, index: Index) -> (r: Result<usize, Error>)
        requires
            old(self).wf(),
            index.wf(),
        ensures
            final(self).wf(),
            r is Err <==> old(self).has_index(index.spec_name()),
            r is Err ==> r->Err_0 == Error::AlreadyExists && *final(self) == *old(self),
            r is Ok ==> r->Ok_0 == old(self).count() && final(self).all() == old(self).all().push(
                index,
            ),
    {
        if self.position(index.name.as_str()).is_some() {
            return Err(Error::AlreadyExists);
        }
        let place = self.entries.len();
        self.entries.push(index);
        proof {
            assert forall|i: int, j: int| 0 <= i < j < self.entries@.len() implies (
            #[trigger] self.entries@[i]).name@ != (#[trigger] self.entries@[j]).name@ by {
                if j < place {
                    assert(old(self).entries@[i].name@ != old(self).entries@[j].name@);
                } else {
                    assert(old(self).entries@[i].name@ != index.name@);
                }
            }
        }
        Ok(place)
    }

    /// Takes an index out. A name that no index goes by is not found.
    pub fn remove(&mut self, name: &str) -> (r: Result<Index, Error>)
        requires
            old(self).wf(),
        ensures
            final(self).wf(),
            r is Err <==> !old(self).has_index(name@),
            r is Err ==> r->Err_0 == Error::NotFound && *final(self) == *old(self),
            r is Ok ==> r->Ok_0 == old(self).at(old(self).place_of(name@)) && final(self).all()
                == old(self).all().remove(old(self).place_of(name@)) && !final(self).has_index(
                name@,
            ),
    {
        let place = match self.position(name) {
            Some(place) => place,
            None => {
                return Err(Error::NotFound);
            },
        };
        let index = self.entries.remove(place);
        proof {
            let before = old(self).entries@;
            assert forall|i: int| 0 <= i < self.entries@.len() implies (
            #[trigger] self.entries@[i]).wf() by {
                if i < place {
                    assert(before[i].wf());
                } else {
                    assert(before[i + 1].wf());
                }
            }
            assert forall|i: int, j: int| 0 <= i < j < self.entries@.len() implies (
            #[trigger] self.entries@[i]).name@ != (#[trigger] self.entries@[j]).name@ by {
                let a = if i < place { i } else { i + 1 };
                let b = if j < place { j } else { j + 1 };
                assert(before[a].name@ != before[b].name@);
            }
            if self.has_index(name@) {
                let i = self.place_of(name@);
                let a = if i < place { i } else { i + 1 };
                assert(before[a].name@ == name@);
                if a < place {
                    assert(before[a].name@ != before[place as int].name@);
                } else {
                    assert(before[place as int].name@ != before[a].name@);
                }
            }
        }
        Ok(index)
    }

    /// Brings an index back that the registry does not hold, from what the
    /// host holds under its name: the header, or nothing, and the records of
    /// the nodes that the header names. An index that the registry holds is
    /// left alone and its place is the answer. What the host does not hold
    /// is not found; a snapshot that stands for no index is corrupt.
    pub fn rehydrate(
        &mut self,
        name: &str,
        header: Option<&IndexRedis>,
        records: &Vec<Option<NodeRedis>>,
        seed: u64,
    ) -> (r: Result<usize, Error>)
        requires
            old(self).wf(),
            header is Some ==> header->Some_0@.name == name@,
        ensures
            final(self).wf(),
            old(self).has_index(name@) ==> r == Ok::<usize, Error>(
                old(self).place_of(name@) as usize,
            ) && *final(self) == *old(self),
            !old(self).has_index(name@) && header is None ==> r == Err::<usize, Error>(
                Error::NotFound,
            ),
            !old(self).has_index(name@) && header is Some ==> (r is Ok <==> restorable(
                header->Some_0@,
                records_of(records@),
            )),
            r is Err ==> (r->Err_0 == Error::NotFound || r->Err_0 == Error::CorruptSnapshot)
                && *final(self) == *old(self),
            r is Ok && !old(self).has_index(name@) ==> r->Ok_0 == old(self).count()
                && final(self).count() == old(self).count() + 1
                && final(self).all().drop_last() == old(self).all()
                && final(self).at(old(self).count()).restores(
                header->Some_0@,
                records_of(records@),
            ),
    {
        match self.position(name) {
            Some(place) => {
                return Ok(place);
            },
            None => {},
        }
        let header = match header {
            Some(header) => header,
            None => {
                return Err(Error::NotFound);
            },
        };
        let index = match make_index(header, records, seed) {
            Ok(index) => index,
            Err(e) => {
                return Err(e);
            },
        };
        proof {
            assert(index.state_restored(header@));
            assert(index.name@ == name@);
        }
        let place = self.entries.len();
        self.entries.push(index);
        proof {
            assert forall|i: int, j: int| 0 <= i < j < self.entries@.len() implies (
            #[trigger] self.entries@[i]).name@ != (#[trigger] self.entries@[j]).name@ by {
                if j < place {
                    assert(old(self).entries@[i].name@ != old(self).entries@[j].name@);
                } else {
                    assert(old(self).entries@[i].name@ != name@);
                }
            }
            assert(self.entries@.drop_last() =~= old(self).entries@);
        }
        Ok(place)
    }
}


impl Registry {
    /// Adds a node to the index that goes by `index_name`, and leaves every
    /// other index as it was. An index that the registry does not hold is
    /// not found.
    pub fn add_node(&mut self, index_name: &str, node_name: &str, data: &Vec<i32>) -> (r: Result<
        Vec<String>,
        Error,
    >)
        requires
            old(self).wf(),
        ensures
            final(self).wf(),
            !old(self).has_index(index_name@) ==> r == Err::<Vec<String>, Error>(Error::NotFound)
                && *final(self) == *old(self),
            old(self).has_index(index_name@) ==> {
                let p = old(self).place_of(index_name@);
                &&& final(self).same_but(old(self), p)
                &&& r == Err::<Vec<String>, Error>(Error::BadArgument) <==> data@.len() != old(
                    self,
                ).at(p).spec_data_dim()
                &&& r == Err::<Vec<String>, Error>(Error::AlreadyExists) <==> (data@.len() == old(
                    self,
                ).at(p).spec_data_dim() && old(self).at(p).has_name(node_name@))
                &&& r is Err ==> final(self).at(p) == old(self).at(p)
                &&& r is Ok ==> final(self).at(p).node_added(
                    &old(self).at(p),
                    node_name@,
                    data@,
                    r->Ok_0@,
                )
            },
    {
        let p = match self.position(index_name) {
            Some(p) => p,
            None => {
                return Err(Error::NotFound);
            },
        };
        let r = self.entries[p].add_node(node_name, data);
        proof {
            let before = old(self).entries@;
            assert(self.entries@[p as int].name@ == before[p as int].name@) by {
                if r is Ok {
                    let new = self.entries@[p as int];
                    let o = before[p as int];
                    if o.enterpoint is None {
                        assert(new.inserted(&o, node_name@, data@, 0, r->Ok_0@));
                    } else {
                        let (sample, level) = choose|sample: u64, level: int| #[trigger]
                            new.inserted_by(&o, node_name@, data@, sample, level, r->Ok_0@);
                        assert(new.inserted(&o, node_name@, data@, level, r->Ok_0@));
                    }
                }
            }
            assert forall|i: int, j: int| 0 <= i < j < self.entries@.len() implies (
            #[trigger] self.entries@[i]).name@ != (#[trigger] self.entries@[j]).name@ by {
                assert(before[i].name@ != before[j].name@);
            }
        }
        r
    }

    /// Deletes a node of the index that goes by `index_name`, and leaves
    /// every other index as it was.
    pub fn delete_node(&mut self, index_name: &str, node_name: &str) -> (r: Result<
        Vec<String>,
        Error,
    >)
        requires
            old(self).wf(),
        ensures
            final(self).wf(),
            !old(self).has_index(index_name@) ==> r == Err::<Vec<String>, Error>(Error::NotFound)
                && *final(self) == *old(self),
            old(self).has_index(index_name@) ==> {
                let p = old(self).place_of(index_name@);
                &&& final(self).same_but(old(self), p)
                &&& r is Err ==> final(self).at(p) == old(self).at(p) && (r->Err_0
                    == Error::NotFound || r->Err_0 == Error::InUse)
                &&& r is Err && r->Err_0 == Error::NotFound <==> !old(self).at(p).has_name(
                    node_name@,
                )
                &&& r is Ok ==> final(self).at(p).deleted(&old(self).at(p), node_name@, r->Ok_0@)
            },
    {
        let p = match self.position(index_name) {
            Some(p) => p,
            None => {
                return Err(Error::NotFound);
            },
        };
        let r = self.entries[p].delete_node(node_name);
        proof {
            let before = old(self).entries@;
            assert(self.entries@[p as int].name@ == before[p as int].name@);
            assert forall|i: int, j: int| 0 <= i < j < self.entries@.len() implies (
            #[trigger] self.entries@[i]).name@ != (#[trigger] self.entries@[j]).name@ by {
                assert(before[i].name@ != before[j].name@);
            }
        }
        r
    }

    /// Searches the index that goes by `index_name`. The registry and its
    /// indexes stay as they are.
    pub fn search_kann(&self, index_name: &str, q: &Vec<i32>, k: usize) -> (r: Result<
        Vec<SearchResult>,
        Error,
    >)
        requires
            self.wf(),
        ensures
            !self.has_index(index_name@) ==> r is Err && r->Err_0 == Error::NotFound,
            self.has_index(index_name@) ==> {
                let idx = self.at(self.place_of(index_name@));
                &&& r is Err <==> q@.len() != idx.spec_data_dim()
                &&& r is Err ==> r->Err_0 == Error::BadArgument
                &&& r is Ok ==> r->Ok_0@.len() <= k && r->Ok_0@.len() <= idx.spec_node_count()
                &&& r is Ok && idx.spec_node_count() > 0 ==> idx.kann_hits(q@, k as int, r->Ok_0@)
                &&& r is Ok ==> idx.hits_match(r->Ok_0@, idx.kann_answer(q@, k as int))
            },
    {
        match self.position(index_name) {
            Some(p) => self.entries[p].search_kann(q, k),
            None => Err(Error::NotFound),
        }
    }
}

} // verus!
