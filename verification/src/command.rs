use crate::error::Error;
use vstd::prelude::*;
use vstd::string::*;

verus! {

/// The commands of the index.
#[derive(Copy, Clone, Debug, PartialEq, Eq, Structural)]
pub enum Command {
    IndexCreate,
    IndexGet,
    IndexDel,
    NodeAdd,
    NodeGet,
    NodeDel,
    SearchKann,
    /// The command that creates an index of the backend: it names a metric
    /// and a scalar type as well.
    BackendCreate,
}

/// Whether a command can come with `argc` words, its own name counted.
pub open spec fn arity_fits(cmd: Command, argc: int) -> bool {
    match cmd {
        Command::IndexCreate => argc >= 8,
        Command::IndexGet => argc == 2,
        Command::IndexDel => argc == 2,
        Command::NodeAdd => argc > 3,
        Command::NodeGet => argc == 3,
        Command::NodeDel => argc == 3,
        Command::SearchKann => argc > 3,
        Command::BackendCreate => argc >= 12,
    }
}

/// Holds the number of words of a command against what the command takes.
pub fn check_arity(cmd: Command, argc: usize) -> (r: Result<(), Error>)
    ensures
        r is Ok <==> arity_fits(cmd, argc as int),
        r is Err ==> r->Err_0 == Error::WrongArity,
{
    let fits = match cmd {
        Command::IndexCreate => argc >= 8,
        Command::IndexGet => argc == 2,
        Command::IndexDel => argc == 2,
        Command::NodeAdd => argc > 3,
        Command::NodeGet => argc == 3,
        Command::NodeDel => argc == 3,
        Command::SearchKann => argc > 3,
        Command::BackendCreate => argc >= 12,
    };
    if fits {
        Ok(())
    } else {
        Err(Error::WrongArity)
    }
}

/// The text of a word in lower case, as `str::to_lowercase` of the standard
/// library gives it.
pub uninterp spec fn lowercase_of(text: Seq<char>) -> Seq<char>;

/// `str::to_lowercase` of the standard library: the word with every
/// character in lower case. The result is the same for the same word, and
/// is known here by its name only.
#[verifier::external_body]
fn lowercase(word: &str) -> (r: String)
    ensures
        r@ == lowercase_of(word@),
{
    word.to_lowercase()
}

/// The parameters of an index as the command that creates it gives them.
#[derive(Copy, Clone, Debug, PartialEq, Eq, Structural)]
pub struct CreateArgs {
    pub dim: usize,
    pub m: usize,
    pub ef_construction: usize,
}

/// What the words after the name of a new index stand for. The three
/// keywords come in lower case; a number that could not be read is `None`.
/// The words are read from the left: a keyword out of place is a wrong
/// arity, a number that could not be read a bad argument.
pub open spec fn create_args_of(
    kw_dim: Seq<char>,
    dim: Option<u64>,
    kw_m: Seq<char>,
    m: Option<u64>,
    kw_ef: Seq<char>,
    ef: Option<u64>,
) -> Result<CreateArgs, Error> {
    if kw_dim != "dim"@ {
        Err(Error::WrongArity)
    } else if dim is None {
        Err(Error::BadArgument)
    } else if kw_m != "m"@ {
        Err(Error::WrongArity)
    } else if m is None {
        Err(Error::BadArgument)
    } else if kw_ef != "efcon"@ {
        Err(Error::WrongArity)
    } else if ef is None {
        Err(Error::BadArgument)
    } else {
        Ok(
            CreateArgs {
                dim: dim->Some_0 as usize,
                m: m->Some_0 as usize,
                ef_construction: ef->Some_0 as usize,
            },
        )
    }
}

/// Reads the words after the name of a new index, the keywords in lower
/// case.
pub fn create_args(
    kw_dim: &str,
    dim: Option<u64>,
    kw_m: &str,
    m: Option<u64>,
    kw_ef: &str,
    ef: Option<u64>,
) -> (r: Result<CreateArgs, Error>)
    ensures
        r == create_args_of(kw_dim@, dim, kw_m@, m, kw_ef@, ef),
{
    if String::from_str(kw_dim) != String::from_str("dim") {
        return Err(Error::WrongArity);
    }
    let dim = match dim {
        Some(dim) => dim,
        None => {
            return Err(Error::BadArgument);
        },
    };
    if String::from_str(kw_m) != String::from_str("m") {
        return Err(Error::WrongArity);
    }
    let m = match m {
        Some(m) => m,
        None => {
            return Err(Error::BadArgument);
        },
    };
    if String::from_str(kw_ef) != String::from_str("efcon") {
        return Err(Error::WrongArity);
    }
    let ef = match ef {
        Some(ef) => ef,
        None => {
            return Err(Error::BadArgument);
        },
    };
    Ok(CreateArgs { dim: dim as usize, m: m as usize, ef_construction: ef as usize })
}

/// Reads the command that creates an index: `argc` words in all, and after
/// the name the keywords `dim`, `m` and `efcon`, in any case, each with its
/// number.
pub fn check_create(
    argc: usize,
    kw_dim: &str,
    dim: Option<u64>,
    kw_m: &str,
    m: Option<u64>,
    kw_ef: &str,
    ef: Option<u64>,
) -> (r: Result<CreateArgs, Error>)
    ensures
        argc < 8 ==> r == Err::<CreateArgs, Error>(Error::WrongArity),
        argc >= 8 ==> r == create_args_of(
            lowercase_of(kw_dim@),
            dim,
            lowercase_of(kw_m@),
            m,
            lowercase_of(kw_ef@),
            ef,
        ),
{
    if argc < 8 {
        return Err(Error::WrongArity);
    }
    let a = lowercase(kw_dim);
    let b = lowercase(kw_m);
    let c = lowercase(kw_ef);
    create_args(a.as_str(), dim, b.as_str(), m, c.as_str(), ef)
}

/// The parameters of an index of the backend as the command that creates it
/// gives them: the words that name the metric and the scalar type come in
/// lower case.
#[derive(Debug, PartialEq, Clone)]
pub struct BackendCreateArgs {
    pub dim: usize,
    pub m: usize,
    pub ef_construction: usize,
    pub metric: String,
    pub quantization: String,
}

/// Whether the words after the name of a new backend index are in order:
/// the three keywords and numbers of every index, then the keyword `metric`
/// and the keyword `quantization`, each with a word. The keywords come in
/// lower case.
pub open spec fn backend_create_fits(
    kw_dim: Seq<char>,
    dim: Option<u64>,
    kw_m: Seq<char>,
    m: Option<u64>,
    kw_ef: Seq<char>,
    ef: Option<u64>,
    kw_metric: Seq<char>,
    kw_quantization: Seq<char>,
) -> Result<(), Error> {
    match create_args_of(kw_dim, dim, kw_m, m, kw_ef, ef) {
        Err(e) => Err(e),
        Ok(_) => if kw_metric != "metric"@ || kw_quantization != "quantization"@ {
            Err(Error::WrongArity)
        } else {
            Ok(())
        },
    }
}

/// Reads the words after the name of a new backend index, the keywords and
/// the two words that they come with in lower case.
pub fn backend_create_args(
    kw_dim: &str,
    dim: Option<u64>,
    kw_m: &str,
    m: Option<u64>,
    kw_ef: &str,
    ef: Option<u64>,
    kw_metric: &str,
    metric: &str,
    kw_quantization: &str,
    quantization: &str,
) -> (r: Result<BackendCreateArgs, Error>)
    ensures
        r is Err <==> backend_create_fits(
            kw_dim@,
            dim,
            kw_m@,
            m,
            kw_ef@,
            ef,
            kw_metric@,
            kw_quantization@,
        ) is Err,
        r is Err ==> r->Err_0 == backend_create_fits(
            kw_dim@,
            dim,
            kw_m@,
            m,
            kw_ef@,
            ef,
            kw_metric@,
            kw_quantization@,
        )->Err_0,
        r is Ok ==> r->Ok_0.dim == dim->Some_0 as usize && r->Ok_0.m == m->Some_0 as usize
            && r->Ok_0.ef_construction == ef->Some_0 as usize && r->Ok_0.metric@ == metric@
            && r->Ok_0.quantization@ == quantization@,
{
    let params = match create_args(kw_dim, dim, kw_m, m, kw_ef, ef) {
        Ok(params) => params,
        Err(e) => {
            return Err(e);
        },
    };
    if String::from_str(kw_metric) != String::from_str("metric") {
        return Err(Error::WrongArity);
    }
    if String::from_str(kw_quantization) != String::from_str("quantization") {
        return Err(Error::WrongArity);
    }
    Ok(
        BackendCreateArgs {
            dim: params.dim,
            m: params.m,
            ef_construction: params.ef_construction,
            metric: String::from_str(metric),
            quantization: String::from_str(quantization),
        },
    )
}

/// Reads the command that creates an index of the backend: `argc` words in
/// all, and after the name the keywords `dim`, `m`, `efcon`, `metric` and
/// `quantization`, in any case, each with its number or word. The two words
/// are handed on in lower case.
pub fn check_backend_create(
    argc: usize,
    kw_dim: &str,
    dim: Option<u64>,
    kw_m: &str,
    m: Option<u64>,
    kw_ef: &str,
    ef: Option<u64>,
    kw_metric: &str,
    metric: &str,
    kw_quantization: &str,
    quantization: &str,
) -> (r: Result<BackendCreateArgs, Error>)
    ensures
        argc < 12 ==> r == Err::<BackendCreateArgs, Error>(Error::WrongArity),
        argc >= 12 ==> {
            let fits = backend_create_fits(
                lowercase_of(kw_dim@),
                dim,
                lowercase_of(kw_m@),
                m,
                lowercase_of(kw_ef@),
                ef,
                lowercase_of(kw_metric@),
                lowercase_of(kw_quantization@),
            );
            &&& r is Err <==> fits is Err
            &&& r is Err ==> r->Err_0 == fits->Err_0
            &&& r is Ok ==> r->Ok_0.dim == dim->Some_0 as usize && r->Ok_0.m == m->Some_0 as usize
                && r->Ok_0.ef_construction == ef->Some_0 as usize && r->Ok_0.metric@
                == lowercase_of(metric@) && r->Ok_0.quantization@ == lowercase_of(quantization@)
        },
{
    if argc < 12 {
        return Err(Error::WrongArity);
    }
    let a = lowercase(kw_dim);
    let b = lowercase(kw_m);
    let c = lowercase(kw_ef);
    let d = lowercase(kw_metric);
    let e = lowercase(metric);
    let f = lowercase(kw_quantization);
    let g = lowercase(quantization);
    backend_create_args(
        a.as_str(),
        dim,
        b.as_str(),
        m,
        c.as_str(),
        ef,
        d.as_str(),
        e.as_str(),
        f.as_str(),
        g.as_str(),
    )
}

/// The key under which the host holds an index: the prefix of the commands,
/// a dot and the name.
pub open spec fn index_key_of(name: Seq<char>) -> Seq<char> {
    "hnsw."@ + name
}

/// The key under which the host holds a node: the key of its index, a dot
/// and the name.
pub open spec fn node_key_of(index_key: Seq<char>, name: Seq<char>) -> Seq<char> {
    index_key + "."@ + name
}

/// The key under which the host holds an index.
pub fn index_key(name: &str) -> (key: String)
    ensures
        key@ == index_key_of(name@),
{
    String::from_str("hnsw.").concat(name)
}

/// The key under which the host holds a node of an index.
pub fn node_key(index_key: &str, name: &str) -> (key: String)
    ensures
        key@ == node_key_of(index_key@, name@),
{
    String::from_str(index_key).concat(".").concat(name)
}

} // verus!
