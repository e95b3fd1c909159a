use crate::kann::SearchResult;
use crate::records::IndexRedis;
use crate::records::NodeRedis;
use crate::snapshot::SearchResultRedis;
use crate::store::texts_of;
use crate::store::texts_of_lists;
use vstd::prelude::*;
use vstd::string::*;

verus! {

/// One value of an answer to the host.
#[derive(Debug, PartialEq, Clone)]
pub enum Reply {
    /// A text.
    Text(String),
    /// A count or a parameter.
    Integer(usize),
    /// A double, as its 64 bits.
    Double(u64),
    /// A similarity.
    Similarity(i128),
    /// The host's null.
    Null,
    /// The components of a vector.
    Floats(Vec<i32>),
    /// Lists of names, one for each layer.
    Names(Vec<Vec<String>>),
}

/// What a value of an answer holds.
pub enum ReplyView {
    Text(Seq<char>),
    Integer(usize),
    Double(u64),
    Similarity(i128),
    Null,
    Floats(Seq<i32>),
    Names(Seq<Seq<Seq<char>>>),
}

impl View for Reply {
    type V = ReplyView;

    open spec fn view(&self) -> ReplyView {
        match self {
            Reply::Text(s) => ReplyView::Text(s@),
            Reply::Integer(n) => ReplyView::Integer(*n),
            Reply::Double(d) => ReplyView::Double(*d),
            Reply::Similarity(s) => ReplyView::Similarity(*s),
            Reply::Null => ReplyView::Null,
            Reply::Floats(v) => ReplyView::Floats(v@),
            Reply::Names(v) => ReplyView::Names(texts_of_lists(v@)),
        }
    }
}

/// What the values of an answer hold.
pub open spec fn replies_of(v: Seq<Reply>) -> Seq<ReplyView> {
    Seq::new(v.len(), |i: int| v[i]@)
}

impl IndexRedis {
    /// The description of an index: each field under its label, the entry
    /// point last, null where there is none.
    pub open spec fn reply_of(&self) -> Seq<ReplyView> {
        seq![
            ReplyView::Text("name"@),
            ReplyView::Text(self.name@),
            ReplyView::Text("metric"@),
            ReplyView::Text(self.mfunc_kind@),
            ReplyView::Text("data_dim"@),
            ReplyView::Integer(self.data_dim),
            ReplyView::Text("m"@),
            ReplyView::Integer(self.m),
            ReplyView::Text("ef_construction"@),
            ReplyView::Integer(self.ef_construction),
            ReplyView::Text("level_mult"@),
            ReplyView::Double(self.level_mult),
            ReplyView::Text("node_count"@),
            ReplyView::Integer(self.node_count),
            ReplyView::Text("max_layer"@),
            ReplyView::Integer(self.max_layer),
            ReplyView::Text("enterpoint"@),
            match self.enterpoint {
                Some(e) => ReplyView::Text(e@),
                None => ReplyView::Null,
            },
        ]
    }

    /// The description of an index that answers the command which asks for
    /// it.
    pub fn reply(&self) -> (r: Vec<Reply>)
        ensures
            replies_of(r@) == self.reply_of(),
    {
        let mut reply: Vec<Reply> = Vec::new();
        reply.push(Reply::Text(String::from_str("name")));
        reply.push(Reply::Text(self.name.clone()));
        reply.push(Reply::Text(String::from_str("metric")));
        reply.push(Reply::Text(self.mfunc_kind.clone()));
        reply.push(Reply::Text(String::from_str("data_dim")));
        reply.push(Reply::Integer(self.data_dim));
        reply.push(Reply::Text(String::from_str("m")));
        reply.push(Reply::Integer(self.m));
        reply.push(Reply::Text(String::from_str("ef_construction")));
        reply.push(Reply::Integer(self.ef_construction));
        reply.push(Reply::Text(String::from_str("level_mult")));
        reply.push(Reply::Double(self.level_mult));
        reply.push(Reply::Text(String::from_str("node_count")));
        reply.push(Reply::Integer(self.node_count));
        reply.push(Reply::Text(String::from_str("max_layer")));
        reply.push(Reply::Integer(self.max_layer));
        reply.push(Reply::Text(String::from_str("enterpoint")));
        match &self.enterpoint {
            Some(e) => {
                reply.push(Reply::Text(e.clone()));
            },
            None => {
                reply.push(Reply::Null);
            },
        }
        proof {
            assert(replies_of(reply@) =~= self.reply_of());
        }
        reply
    }
}

impl NodeRedis {
    /// The description of a node: its vector and the names of its
    /// neighbours, each under its label.
    pub open spec fn reply_of(&self) -> Seq<ReplyView> {
        seq![
            ReplyView::Text("data"@),
            ReplyView::Floats(self.data@),
            ReplyView::Text("neighbors"@),
            ReplyView::Names(texts_of_lists(self.neighbors@)),
        ]
    }

    /// The description of a node that answers the command which asks for it.
    pub fn reply(&self) -> (r: Vec<Reply>)
        ensures
            replies_of(r@) == self.reply_of(),
    {
        let mut reply: Vec<Reply> = Vec::new();
        reply.push(Reply::Text(String::from_str("data")));
        reply.push(Reply::Floats(crate::insert::copy_vector(&self.data)));
        reply.push(Reply::Text(String::from_str("neighbors")));
        reply.push(Reply::Names(copy_lists(&self.neighbors)));
        proof {
            assert(replies_of(reply@) =~= self.reply_of());
        }
        reply
    }
}

impl SearchResultRedis {
    /// The description of a hit: its similarity and its name, each under
    /// its label.
    pub open spec fn reply_of(&self) -> Seq<ReplyView> {
        seq![
            ReplyView::Text("similarity"@),
            ReplyView::Similarity(self.sim),
            ReplyView::Text("name"@),
            ReplyView::Text(self.name@),
        ]
    }

    /// The description of a hit in the answer to a search.
    pub fn reply(&self) -> (r: Vec<Reply>)
        ensures
            replies_of(r@) == self.reply_of(),
    {
        let mut reply: Vec<Reply> = Vec::new();
        reply.push(Reply::Text(String::from_str("similarity")));
        reply.push(Reply::Similarity(self.sim));
        reply.push(Reply::Text(String::from_str("name")));
        reply.push(Reply::Text(self.name.clone()));
        proof {
            assert(replies_of(reply@) =~= self.reply_of());
        }
        reply
    }
}

/// The answer to a search: the hits in their order, each as the host is
/// answered. The host is told their number before them.
pub fn search_reply(hits: &Vec<SearchResult>) -> (r: Vec<SearchResultRedis>)
    ensures
        r@.len() == hits@.len(),
        forall|i: int|
            0 <= i < hits@.len() ==> (#[trigger] r@[i]).sim == hits@[i].sim && r@[i].name@
                == hits@[i].name@,
{
    let mut out: Vec<SearchResultRedis> = Vec::new();
    let mut i: usize = 0;
    while i < hits.len()
        invariant
            i <= hits@.len(),
            out@.len() == i,
            forall|j: int|
                0 <= j < i ==> (#[trigger] out@[j]).sim == hits@[j].sim && out@[j].name@
                    == hits@[j].name@,
        decreases hits@.len() - i,
    {
        out.push(SearchResultRedis::from(&hits[i]));
        i = i + 1;
    }
    out
}

/// A copy of a list of strings.
fn copy_names(v: &Vec<String>) -> (r: Vec<String>)
    ensures
        texts_of(r@) == texts_of(v@),
{
    let mut r: Vec<String> = Vec::new();
    let mut i: usize = 0;
    while i < v.len()
        invariant
            i <= v@.len(),
            r@.len() == i,
            forall|j: int| 0 <= j < i ==> (#[trigger] r@[j])@ == v@[j]@,
        decreases v@.len() - i,
    {
        r.push(v[i].clone());
        i = i + 1;
    }
    proof {
        assert(texts_of(r@) =~= texts_of(v@));
    }
    r
}

/// A copy of lists of strings.
fn copy_lists(v: &Vec<Vec<String>>) -> (r: Vec<Vec<String>>)
    ensures
        texts_of_lists(r@) == texts_of_lists(v@),
{
    let mut r: Vec<Vec<String>> = Vec::new();
    let mut i: usize = 0;
    while i < v.len()
        invariant
            i <= v@.len(),
            r@.len() == i,
            forall|j: int| 0 <= j < i ==> texts_of((#[trigger] r@[j])@) == texts_of(v@[j]@),
        decreases v@.len() - i,
    {
        r.push(copy_names(&v[i]));
        i = i + 1;
    }
    proof {
        assert(texts_of_lists(r@) =~= texts_of_lists(v@));
    }
    r
}

} // verus!
