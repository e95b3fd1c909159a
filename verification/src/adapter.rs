use vstd::prelude::*;
use vstd::std_specs::convert::FromSpecImpl;
use vstd::string::*;

verus! {

/// The metrics that the delegating backend knows, as a command names them.
#[derive(Debug, PartialEq, Clone)]
pub enum MKind {
    IP,
    L2sq,
    Cos,
    Pearson,
    Haversine,
    Hamming,
    Tanimoto,
    Sorensen,
}

/// The metrics of the backend, as the backend itself names them.
#[derive(Copy, Clone, Debug, PartialEq, Eq, Structural)]
pub enum MetricKind {
    IP,
    L2sq,
    Cos,
    Pearson,
    Haversine,
    Hamming,
    Tanimoto,
    Sorensen,
}

/// The scalar types in which the backend can hold a vector, as a command
/// names them.
#[derive(Debug, PartialEq, Clone)]
pub enum SKind {
    F64,
    F32,
    F16,
    I8,
    B1,
}

/// The scalar types of the backend, as the backend itself names them.
#[derive(Copy, Clone, Debug, PartialEq, Eq, Structural)]
pub enum ScalarKind {
    F64,
    F32,
    F16,
    I8,
    B1,
}

impl MKind {
    /// The backend's metric for each metric of a command.
    pub open spec fn metric_kind_of(self) -> MetricKind {
        match self {
            MKind::IP => MetricKind::IP,
            MKind::L2sq => MetricKind::L2sq,
            MKind::Cos => MetricKind::Cos,
            MKind::Pearson => MetricKind::Pearson,
            MKind::Haversine => MetricKind::Haversine,
            MKind::Hamming => MetricKind::Hamming,
            MKind::Tanimoto => MetricKind::Tanimoto,
            MKind::Sorensen => MetricKind::Sorensen,
        }
    }

    /// The metric that a word of a command stands for. A word that names no
    /// metric stands for the inner product.
    pub open spec fn of_text(text: Seq<char>) -> MKind {
        if text == "f64"@ {
            MKind::IP
        } else if text == "l2sq"@ {
            MKind::L2sq
        } else if text == "cos"@ {
            MKind::Cos
        } else if text == "pearson"@ {
            MKind::Pearson
        } else if text == "haversine,"@ {
            MKind::Haversine
        } else if text == "hamming"@ {
            MKind::Hamming
        } else if text == "tanimoto"@ {
            MKind::Tanimoto
        } else if text == "sorensen"@ {
            MKind::Sorensen
        } else {
            MKind::IP
        }
    }

    /// The backend's metric for a metric of a command.
    pub fn map_metric_kind(&self) -> (r: MetricKind)
        ensures
            r == self.metric_kind_of(),
    {
        match self {
            Self::IP => MetricKind::IP,
            Self::L2sq => MetricKind::L2sq,
            Self::Cos => MetricKind::Cos,
            Self::Pearson => MetricKind::Pearson,
            Self::Haversine => MetricKind::Haversine,
            Self::Hamming => MetricKind::Hamming,
            Self::Tanimoto => MetricKind::Tanimoto,
            Self::Sorensen => MetricKind::Sorensen,
        }
    }

    /// The name under which the metric shows in an index's description.
    pub open spec fn label_of(self) -> Seq<char> {
        match self {
            MKind::IP => "IP"@,
            MKind::L2sq => "L2sq"@,
            MKind::Cos => "Cos"@,
            MKind::Pearson => "Pearson"@,
            MKind::Haversine => "Haversine"@,
            MKind::Hamming => "Hamming"@,
            MKind::Tanimoto => "Tanimoto"@,
            MKind::Sorensen => "Sorensen"@,
        }
    }

    /// The name under which the metric shows in an index's description.
    pub fn label(&self) -> (s: String)
        ensures
            s@ == self.label_of(),
    {
        match self {
            Self::IP => String::from_str("IP"),
            Self::L2sq => String::from_str("L2sq"),
            Self::Cos => String::from_str("Cos"),
            Self::Pearson => String::from_str("Pearson"),
            Self::Haversine => String::from_str("Haversine"),
            Self::Hamming => String::from_str("Hamming"),
            Self::Tanimoto => String::from_str("Tanimoto"),
            Self::Sorensen => String::from_str("Sorensen"),
        }
    }
}

impl From<String> for MKind {
    fn from(opts: String) -> (r: MKind) {
        if opts == String::from_str("f64") {
            Self::IP
        } else if opts == String::from_str("l2sq") {
            Self::L2sq
        } else if opts == String::from_str("cos") {
            Self::Cos
        } else if opts == String::from_str("pearson") {
            Self::Pearson
        } else if opts == String::from_str("haversine,") {
            Self::Haversine
        } else if opts == String::from_str("hamming") {
            Self::Hamming
        } else if opts == String::from_str("tanimoto") {
            Self::Tanimoto
        } else if opts == String::from_str("sorensen") {
            Self::Sorensen
        } else {
            Self::IP
        }
    }
}

impl FromSpecImpl<String> for MKind {
    open spec fn obeys_from_spec() -> bool {
        true
    }

    open spec fn from_spec(opts: String) -> MKind {
        MKind::of_text(opts@)
    }
}

impl SKind {
    /// The backend's scalar type for each scalar type of a command.
    pub open spec fn scalar_kind_of(self) -> ScalarKind {
        match self {
            SKind::F64 => ScalarKind::F64,
            SKind::F32 => ScalarKind::F32,
            SKind::F16 => ScalarKind::F16,
            SKind::I8 => ScalarKind::I8,
            SKind::B1 => ScalarKind::B1,
        }
    }

    /// The scalar type that a word of a command stands for. A word that
    /// names none stands for the reals of 32 bits.
    pub open spec fn of_text(text: Seq<char>) -> SKind {
        if text == "f64"@ {
            SKind::F64
        } else if text == "f32"@ {
            SKind::F32
        } else if text == "f16"@ {
            SKind::F16
        } else if text == "i8"@ {
            SKind::I8
        } else if text == "b1"@ {
            SKind::B1
        } else {
            SKind::F32
        }
    }

    /// The backend's scalar type for a scalar type of a command.
    pub fn map_scalar_kind(&self) -> (r: ScalarKind)
        ensures
            r == self.scalar_kind_of(),
    {
        match self {
            Self::F64 => ScalarKind::F64,
            Self::F32 => ScalarKind::F32,
            Self::F16 => ScalarKind::F16,
            Self::I8 => ScalarKind::I8,
            Self::B1 => ScalarKind::B1,
        }
    }

    /// The name under which the scalar type shows in an index's description.
    pub open spec fn label_of(self) -> Seq<char> {
        match self {
            SKind::F64 => "F64"@,
            SKind::F32 => "F32"@,
            SKind::F16 => "F16"@,
            SKind::I8 => "I8"@,
            SKind::B1 => "B1"@,
        }
    }

    /// The name under which the scalar type shows in an index's description.
    pub fn label(&self) -> (s: String)
        ensures
            s@ == self.label_of(),
    {
        match self {
            Self::F64 => String::from_str("F64"),
            Self::F32 => String::from_str("F32"),
            Self::F16 => String::from_str("F16"),
            Self::I8 => String::from_str("I8"),
            Self::B1 => String::from_str("B1"),
        }
    }
}

impl From<String> for SKind {
    fn from(opts: String) -> (r: SKind) {
        if opts == String::from_str("f64") {
            Self::F64
        } else if opts == String::from_str("f32") {
            Self::F32
        } else if opts == String::from_str("f16") {
            Self::F16
        } else if opts == String::from_str("i8") {
            Self::I8
        } else if opts == String::from_str("b1") {
            Self::B1
        } else {
            SKind::F32
        }
    }
}

impl FromSpecImpl<String> for SKind {
    open spec fn obeys_from_spec() -> bool {
        true
    }

    open spec fn from_spec(opts: String) -> SKind {
        SKind::of_text(opts@)
    }
}

/// The options of an index of the backend, as a command gives them.
#[derive(Debug, PartialEq, Clone)]
pub struct IndexOpts {
    pub dimensions: usize,
    pub metric: MKind,
    pub quantization: SKind,
    pub connectivity: usize,
    pub expansion_add: usize,
    pub expansion_search: usize,
    pub multi: bool,
}

/// The options of an index, as the backend takes them.
#[derive(Copy, Clone, Debug, PartialEq, Eq, Structural)]
pub struct IndexOptions {
    pub dimensions: usize,
    pub metric: MetricKind,
    pub quantization: ScalarKind,
    pub connectivity: usize,
    pub expansion_add: usize,
    pub expansion_search: usize,
    pub multi: bool,
}

impl Default for IndexOpts {
    fn default() -> (r: IndexOpts)
        ensures
            r.dimensions == 128,
            r.metric == MKind::IP,
            r.quantization == SKind::F32,
            r.connectivity == 32,
            r.expansion_add == 2,
            r.expansion_search == 3,
            !r.multi,
    {
        Self {
            dimensions: 128,
            metric: MKind::IP,
            quantization: SKind::F32,
            connectivity: 32,
            expansion_add: 2,
            expansion_search: 3,
            multi: false,
        }
    }
}

impl IndexOpts {
    /// The backend's options for the options of a command.
    pub open spec fn options_of(self) -> IndexOptions {
        IndexOptions {
            dimensions: self.dimensions,
            metric: self.metric.metric_kind_of(),
            quantization: self.quantization.scalar_kind_of(),
            connectivity: self.connectivity,
            expansion_add: self.expansion_add,
            expansion_search: self.expansion_search,
            multi: self.multi,
        }
    }
}

impl From<IndexOpts> for IndexOptions {
    fn from(opts: IndexOpts) -> (r: IndexOptions) {
        IndexOptions {
            dimensions: (opts.dimensions),
            metric: (MKind::map_metric_kind(&opts.metric)),
            quantization: (SKind::map_scalar_kind(&opts.quantization)),
            connectivity: (opts.connectivity),
            expansion_add: (opts.expansion_add),
            expansion_search: (opts.expansion_search),
            multi: (opts.multi),
        }
    }
}

impl FromSpecImpl<IndexOpts> for IndexOptions {
    open spec fn obeys_from_spec() -> bool {
        true
    }

    open spec fn from_spec(opts: IndexOpts) -> IndexOptions {
        opts.options_of()
    }
}

} // verus!
