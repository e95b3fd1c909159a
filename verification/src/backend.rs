use crate::error::Error;
use vstd::prelude::*;
use vstd::string::*;

verus! {

/// By how much the capacity of a backend index grows when nothing else is
/// said.
pub const USEARCH_INDEX_RESERVE_CAP: usize = 10;

/// The most by which the capacity of a backend index grows at once.
pub const MAX_USEARCH_INDEX_RESERVE_CAP: usize = 100_000;

/// The key that the backend gives for a node that has been removed.
pub const REMOVED_KEY: u64 = 0xFFFF_FFFF_FFFF_FFFF;

/// The step by which the capacity grows: the step that the module was
/// loaded with, cut at the largest step, or the usual step where none was
/// given.
pub open spec fn reserve_step_of(step: Option<usize>) -> int {
    match step {
        Some(s) => if s > MAX_USEARCH_INDEX_RESERVE_CAP {
            MAX_USEARCH_INDEX_RESERVE_CAP as int
        } else {
            s as int
        },
        None => USEARCH_INDEX_RESERVE_CAP as int,
    }
}

/// The capacity to reserve before a node is added, if any: the capacity at
/// hand and one step, as soon as the index holds half of that.
pub open spec fn reserve_target_of(capacity: int, size: int, step: Option<usize>) -> Option<int> {
    let cap = capacity + reserve_step_of(step);
    if size >= cap / 2 {
        Some(cap)
    } else {
        None
    }
}

/// Decides whether the backend index has to grow before a node is added,
/// and to which capacity.
pub fn reserve_target(capacity: usize, size: usize, step: Option<usize>) -> (r: Option<usize>)
    requires
        capacity + MAX_USEARCH_INDEX_RESERVE_CAP <= usize::MAX,
    ensures
        r is Some <==> reserve_target_of(capacity as int, size as int, step) is Some,
        r is Some ==> r->Some_0 == reserve_target_of(capacity as int, size as int, step)->Some_0,
{
    let step = match step {
        Some(s) => if s > MAX_USEARCH_INDEX_RESERVE_CAP {
            MAX_USEARCH_INDEX_RESERVE_CAP
        } else {
            s
        },
        None => USEARCH_INDEX_RESERVE_CAP,
    };
    let cap = capacity + step;
    if size >= cap / 2 {
        Some(cap)
    } else {
        None
    }
}

/// Decides as `reserve_target` does, for every capacity: a capacity so
/// large that one more step is beyond the machine is left as it is.
pub fn reserve_target_checked(capacity: usize, size: usize, step: Option<usize>) -> (r: Option<
    usize,
>)
    ensures
        capacity + MAX_USEARCH_INDEX_RESERVE_CAP > usize::MAX ==> r is None,
        capacity + MAX_USEARCH_INDEX_RESERVE_CAP <= usize::MAX ==> (r is Some
            <==> reserve_target_of(capacity as int, size as int, step) is Some) && (r is Some
            ==> r->Some_0 == reserve_target_of(capacity as int, size as int, step)->Some_0),
{
    if capacity > usize::MAX - MAX_USEARCH_INDEX_RESERVE_CAP {
        None
    } else {
        reserve_target(capacity, size, step)
    }
}

/// The file in which the backend keeps an index: in the directory of the
/// module, under the key of the index, with the suffix of index files.
pub open spec fn index_file_of(dir: Seq<char>, key: Seq<char>) -> Seq<char> {
    dir + "/"@ + key + ".idx"@
}

/// The file in which the backend keeps an index.
pub fn index_file(dir: &str, key: &str) -> (path: String)
    ensures
        path@ == index_file_of(dir@, key@),
{
    String::from_str(dir).concat("/").concat(key).concat(".idx")
}

/// The key under which the host holds a backend index.
pub open spec fn backend_key_of(name: Seq<char>) -> Seq<char> {
    "usearch."@ + name
}

/// The key under which the host holds a backend index.
pub fn backend_key(name: &str) -> (key: String)
    ensures
        key@ == backend_key_of(name@),
{
    String::from_str("usearch.").concat(name)
}

/// The names of the nodes of a backend index and the keys under which the
/// backend holds them: no name twice, no key twice.
pub struct NodeNames {
    pub(crate) ids: Vec<usize>,
    pub(crate) names: Vec<String>,
}

impl NodeNames {
    /// The number of nodes.
    pub open(crate) spec fn count(&self) -> int {
        self.ids@.len() as int
    }

    /// Whether a node goes by the name.
    pub open(crate) spec fn has_name(&self, name: Seq<char>) -> bool {
        exists|i: int| 0 <= i < self.names@.len() && (#[trigger] self.names@[i])@ == name
    }

    /// Whether a node is held under the key.
    pub open(crate) spec fn has_id(&self, id: usize) -> bool {
        exists|i: int| 0 <= i < self.ids@.len() && #[trigger] self.ids@[i] == id
    }

    /// Whether the node that goes by the name is held under the key.
    pub open(crate) spec fn pairs(&self, id: usize, name: Seq<char>) -> bool {
        exists|i: int|
            0 <= i < self.ids@.len() && #[trigger] self.ids@[i] == id && self.names@[i]@ == name
    }

    /// What holds of the names between two operations.
    pub open(crate) spec fn wf(&self) -> bool {
        &&& self.ids@.len() == self.names@.len()
        &&& forall|i: int, j: int|
            0 <= i < j < self.ids@.len() ==> #[trigger] self.ids@[i] != #[trigger] self.ids@[j]
        &&& forall|i: int, j: int|
            0 <= i < j < self.names@.len() ==> (#[trigger] self.names@[i])@ != (
            #[trigger] self.names@[j])@
    }

    /// No names yet.
    pub fn new() -> (r: NodeNames)
        ensures
            r.wf(),
            r.count() == 0,
    {
        NodeNames { ids: Vec::new(), names: Vec::new() }
    }

    /// The number of nodes.
    pub fn len(&self) -> (n: usize)
        requires
            self.wf(),
        ensures
            n == self.count(),
    {
        self.ids.len()
    }

    /// Where the name stands.
    fn place_of_name(&self, name: &String) -> (r: Option<usize>)
        requires
            self.wf(),
        ensures
            r is Some <==> self.has_name(name@),
            r is Some ==> r->Some_0 < self.names@.len() && self.names@[r->Some_0 as int]@ == name@,
    {
        let mut i: usize = 0;
        while i < self.names.len()
            invariant
                i <= self.names@.len(),
                forall|j: int| 0 <= j < i ==> (#[trigger] self.names@[j])@ != name@,
            decreases self.names@.len() - i,
        {
            if self.names[i] == *name {
                return Some(i);
            }
            i = i + 1;
        }
        None
    }

    /// Where the key stands.
    fn place_of_id(&self, id: usize) -> (r: Option<usize>)
        requires
            self.wf(),
        ensures
            r is Some <==> self.has_id(id),
            r is Some ==> r->Some_0 < self.ids@.len() && self.ids@[r->Some_0 as int] == id,
    {
        let mut i: usize = 0;
        while i < self.ids.len()
            invariant
                i <= self.ids@.len(),
                forall|j: int| 0 <= j < i ==> #[trigger] self.ids@[j] != id,
            decreases self.ids@.len() - i,
        {
            if self.ids[i] == id {
                return Some(i);
            }
            i = i + 1;
        }
        None
    }

    /// Whether a node goes by the name.
    pub fn contains_name(&self, name: &str) -> (b: bool)
        requires
            self.wf(),
        ensures
            b == self.has_name(name@),
    {
        self.place_of_name(&String::from_str(name)).is_some()
    }

    /// The key under which the node that goes by the name is held.
    pub fn id_of(&self, name: &str) -> (r: Option<usize>)
        requires
            self.wf(),
        ensures
            r is Some <==> self.has_name(name@),
            r is Some ==> self.pairs(r->Some_0, name@),
    {
        match self.place_of_name(&String::from_str(name)) {
            Some(i) => Some(self.ids[i]),
            None => None,
        }
    }

    /// The name of the node that is held under the key; the empty name where
    /// the key holds none.
    pub fn name_of(&self, id: usize) -> (r: String)
        requires
            self.wf(),
        ensures
            self.has_id(id) ==> self.pairs(id, r@),
            !self.has_id(id) ==> r@ == Seq::<char>::empty(),
    {
        match self.place_of_id(id) {
            Some(i) => self.names[i].clone(),
            None => String::new(),
        }
    }

    /// Takes a node in under a key. A name that is taken already exists; so
    /// does a key that is taken.
    pub fn insert(&mut self, id: usize, name: &str) -> (r: Result<(), Error>)
        requires
            old(self).wf(),
        ensures
            final(self).wf(),
            r is Err <==> old(self).has_name(name@) || old(self).has_id(id),
            r is Err ==> r->Err_0 == Error::AlreadyExists && *final(self) == *old(self),
            r is Ok ==> final(self).count() == old(self).count() + 1 && forall|
                i: usize,
                n: Seq<char>,
            |
                #[trigger] final(self).pairs(i, n) <==> (old(self).pairs(i, n) || (i == id && n
                    == name@)),
    {
        let key = String::from_str(name);
        if self.place_of_name(&key).is_some() || self.place_of_id(id).is_some() {
            return Err(Error::AlreadyExists);
        }
        let ghost at = self.ids@.len() as int;
        self.ids.push(id);
        self.names.push(key);
        proof {
            assert(self.ids@[at] == id && self.names@[at]@ == name@);
            assert forall|i: usize, n: Seq<char>| #[trigger]
                self.pairs(i, n) <==> (old(self).pairs(i, n) || (i == id && n == name@)) by {
                if old(self).pairs(i, n) {
                    let p = choose|p: int|
                        0 <= p < old(self).ids@.len() && #[trigger] old(self).ids@[p] == i && old(
                            self,
                        ).names@[p]@ == n;
                    assert(self.ids@[p] == i && self.names@[p]@ == n);
                }
                if self.pairs(i, n) {
                    let p = choose|p: int|
                        0 <= p < self.ids@.len() && #[trigger] self.ids@[p] == i
                            && self.names@[p]@ == n;
                    if p < at {
                        assert(old(self).ids@[p] == i && old(self).names@[p]@ == n);
                    }
                }
            }
            assert forall|i: int, j: int| 0 <= i < j < self.ids@.len() implies #[trigger] self.ids@[i]
                != #[trigger] self.ids@[j] by {
                if j < at {
                    assert(old(self).ids@[i] != old(self).ids@[j]);
                } else {
                    assert(old(self).ids@[i] == self.ids@[i]);
                }
            }
            assert forall|i: int, j: int| 0 <= i < j < self.names@.len() implies (
            #[trigger] self.names@[i])@ != (#[trigger] self.names@[j])@ by {
                if j < at {
                    assert(old(self).names@[i]@ != old(self).names@[j]@);
                } else {
                    assert(old(self).names@[i] == self.names@[i]);
                }
            }
        }
        Ok(())
    }

    /// Takes the node out that goes by the name, and answers with its key.
    pub fn remove(&mut self, name: &str) -> (r: Option<usize>)
        requires
            old(self).wf(),
        ensures
            final(self).wf(),
            r is Some <==> old(self).has_name(name@),
            r is None ==> *final(self) == *old(self),
            r is Some ==> old(self).pairs(r->Some_0, name@) && !final(self).has_name(name@)
                && !final(self).has_id(r->Some_0) && final(self).count() == old(self).count() - 1,
            r is Some ==> forall|i: usize, n: Seq<char>|
                #[trigger] final(self).pairs(i, n) <==> (old(self).pairs(i, n) && n != name@),
    {
        let at = match self.place_of_name(&String::from_str(name)) {
            Some(at) => at,
            None => {
                return None;
            },
        };
        let id = self.ids.remove(at);
        self.names.remove(at);
        proof {
            let ids = old(self).ids@;
            let names = old(self).names@;
            assert(ids[at as int] == id && names[at as int]@ == name@);
            assert forall|i: int, j: int| 0 <= i < j < self.ids@.len() implies #[trigger] self.ids@[i]
                != #[trigger] self.ids@[j] by {
                let a = if i < at { i } else { i + 1 };
                let b = if j < at { j } else { j + 1 };
                assert(ids[a] != ids[b]);
            }
            assert forall|i: int, j: int| 0 <= i < j < self.names@.len() implies (
            #[trigger] self.names@[i])@ != (#[trigger] self.names@[j])@ by {
                let a = if i < at { i } else { i + 1 };
                let b = if j < at { j } else { j + 1 };
                assert(names[a]@ != names[b]@);
            }
            if self.has_name(name@) {
                let i = choose|i: int|
                    0 <= i < self.names@.len() && (#[trigger] self.names@[i])@ == name@;
                let a = if i < at { i } else { i + 1 };
                assert(names[a]@ == name@);
                if a < at {
                    assert(names[a]@ != names[at as int]@);
                } else {
                    assert(names[at as int]@ != names[a]@);
                }
            }
            if self.has_id(id) {
                let i = choose|i: int| 0 <= i < self.ids@.len() && #[trigger] self.ids@[i] == id;
                let a = if i < at { i } else { i + 1 };
                assert(ids[a] == id);
                if a < at {
                    assert(ids[a] != ids[at as int]);
                } else {
                    assert(ids[at as int] != ids[a]);
                }
            }
            assert forall|i: usize, n: Seq<char>| #[trigger]
                self.pairs(i, n) <==> (old(self).pairs(i, n) && n != name@) by {
                if self.pairs(i, n) {
                    let p = choose|p: int|
                        0 <= p < self.ids@.len() && #[trigger] self.ids@[p] == i
                            && self.names@[p]@ == n;
                    let a = if p < at { p } else { p + 1 };
                    assert(ids[a] == i && names[a]@ == n);
                    if a < at {
                        assert(names[a]@ != names[at as int]@);
                    } else {
                        assert(names[at as int]@ != names[a]@);
                    }
                }
                if old(self).pairs(i, n) && n != name@ {
                    let a = choose|a: int|
                        0 <= a < ids.len() && #[trigger] ids[a] == i && names[a]@ == n;
                    let p = if a < at { a } else { a - 1 };
                    assert(self.ids@[p] == i && self.names@[p]@ == n);
                }
            }
        }
        Some(id)
    }
}

/// One match of a backend search: its place in the backend's answer, its
/// key, and the name of its node.
#[derive(Debug, PartialEq, Clone)]
pub struct MatchName {
    pub pos: usize,
    pub id: usize,
    pub name: String,
}

/// The places of the backend's answer up to `n` that hold a node: those
/// whose key is not the key of a removed node.
pub open spec fn kept_places(keys: Seq<u64>, n: nat) -> Seq<int>
    decreases n,
{
    if n == 0 {
        Seq::empty()
    } else if keys[n - 1] == REMOVED_KEY {
        kept_places(keys, (n - 1) as nat)
    } else {
        kept_places(keys, (n - 1) as nat).push(n - 1)
    }
}

/// Names the matches of a backend search: every match but those of removed
/// nodes, in the order of the backend's answer, each with the name that its
/// key stands for, the empty name where it stands for none.
pub fn name_matches(keys: &Vec<u64>, names: &NodeNames) -> (r: Vec<MatchName>)
    requires
        names.wf(),
    ensures
        r@.len() == kept_places(keys@, keys@.len()).len(),
        forall|t: int|
            0 <= t < r@.len() ==> {
                let p = kept_places(keys@, keys@.len())[t];
                &&& (#[trigger] r@[t]).pos == p
                &&& r@[t].id == keys@[p] as usize
                &&& names.has_id(r@[t].id) ==> names.pairs(r@[t].id, r@[t].name@)
                &&& !names.has_id(r@[t].id) ==> r@[t].name@ == Seq::<char>::empty()
            },
{
    let mut out: Vec<MatchName> = Vec::new();
    let mut i: usize = 0;
    while i < keys.len()
        invariant
            names.wf(),
            i <= keys@.len(),
            out@.len() == kept_places(keys@, i as nat).len(),
            forall|t: int|
                0 <= t < out@.len() ==> {
                    let p = kept_places(keys@, i as nat)[t];
                    &&& (#[trigger] out@[t]).pos == p
                    &&& out@[t].id == keys@[p] as usize
                    &&& names.has_id(out@[t].id) ==> names.pairs(out@[t].id, out@[t].name@)
                    &&& !names.has_id(out@[t].id) ==> out@[t].name@ == Seq::<char>::empty()
                },
        decreases keys@.len() - i,
    {
        if keys[i] != REMOVED_KEY {
            let id = keys[i] as usize;
            let name = names.name_of(id);
            out.push(MatchName { pos: i, id, name });
        }
        i = i + 1;
    }
    out
}

/// The arguments that a module is loaded with, in pairs of a key and a
/// value; nothing where a key is left without value.
pub fn module_args(args: &Vec<String>) -> (r: Option<Vec<(String, String)>>)
    ensures
        r is Some <==> args@.len() % 2 == 0,
        r is Some ==> r->Some_0@.len() * 2 == args@.len() && forall|i: int|
            0 <= i < r->Some_0@.len() ==> (#[trigger] r->Some_0@[i]).0@ == args@[2 * i]@
                && r->Some_0@[i].1@ == args@[2 * i + 1]@,
{
    if args.len() % 2 != 0 {
        return None;
    }
    let mut out: Vec<(String, String)> = Vec::new();
    let mut i: usize = 0;
    while i < args.len()
        invariant
            args@.len() % 2 == 0,
            i <= args@.len(),
            i % 2 == 0,
            out@.len() * 2 == i,
            forall|j: int|
                0 <= j < out@.len() ==> (#[trigger] out@[j]).0@ == args@[2 * j]@ && out@[j].1@
                    == args@[2 * j + 1]@,
        decreases args@.len() - i,
    {
        out.push((args[i].clone(), args[i + 1].clone()));
        i = i + 2;
    }
    Some(out)
}

} // verus!
