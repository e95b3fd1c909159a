use vstd::prelude::*;
use vstd::string::*;

verus! {

/// The longest vector that the kernels take: with components of 32 bits the
/// sums below then stay inside 128 bits.
pub const MAX_DIM: usize = 0xFFFF_FFFF;

/// The metrics an index can be built with. Every kernel answers with a
/// similarity: the larger, the closer.
#[derive(Copy, Clone, Debug, PartialEq, Eq, Structural)]
pub enum MetricFuncs {
    /// The negated squared distance.
    Euclidean,
    /// The inner product.
    InnerProduct,
    /// The inner product of vectors that the caller has brought to one
    /// common length beforehand.
    Cosine,
}

/// The number of components that two vectors share.
pub open spec fn common_len(a: Seq<i32>, b: Seq<i32>) -> nat {
    if a.len() <= b.len() {
        a.len()
    } else {
        b.len()
    }
}

/// The sum of the squared differences of the first `n` components.
pub open spec fn l2_upto(a: Seq<i32>, b: Seq<i32>, n: nat) -> int
    decreases n,
{
    if n == 0 {
        0
    } else {
        l2_upto(a, b, (n - 1) as nat) + (a[n - 1] - b[n - 1]) * (a[n - 1] - b[n - 1])
    }
}

/// The sum of the products of the first `n` components.
pub open spec fn dot_upto(a: Seq<i32>, b: Seq<i32>, n: nat) -> int
    decreases n,
{
    if n == 0 {
        0
    } else {
        dot_upto(a, b, (n - 1) as nat) + a[n - 1] * b[n - 1]
    }
}

/// The squared distance of two vectors, over the components they share.
pub open spec fn l2(a: Seq<i32>, b: Seq<i32>) -> int {
    l2_upto(a, b, common_len(a, b))
}

/// The inner product of two vectors, over the components they share.
pub open spec fn dot(a: Seq<i32>, b: Seq<i32>) -> int {
    dot_upto(a, b, common_len(a, b))
}

/// How close `a` is to `b` under a metric: the larger, the closer.
pub open spec fn similarity_of(kind: MetricFuncs, a: Seq<i32>, b: Seq<i32>) -> int {
    match kind {
        MetricFuncs::Euclidean => -l2(a, b),
        MetricFuncs::InnerProduct => dot(a, b),
        MetricFuncs::Cosine => dot(a, b),
    }
}

/// The square of a difference of two components fits in 64 bits.
proof fn lemma_square_bound(x: int, y: int)
    requires
        -0x8000_0000 <= x < 0x8000_0000,
        -0x8000_0000 <= y < 0x8000_0000,
    ensures
        0 <= (x - y) * (x - y) <= 0xFFFF_FFFF * 0xFFFF_FFFF,
        -0x8000_0000 * 0x8000_0000 <= x * y <= 0x8000_0000 * 0x8000_0000,
{
    assert(0 <= (x - y) * (x - y) <= 0xFFFF_FFFF * 0xFFFF_FFFF) by (nonlinear_arith)
        requires
            -0xFFFF_FFFF <= x - y <= 0xFFFF_FFFF,
    ;
    assert(-0x8000_0000 * 0x8000_0000 <= x * y <= 0x8000_0000 * 0x8000_0000)
        by (nonlinear_arith)
        requires
            -0x8000_0000 <= x < 0x8000_0000,
            -0x8000_0000 <= y < 0x8000_0000,
    ;
}

/// The squared distance of two vectors: the sum of the squared differences
/// of their components. The declared length `_n` is not read.
pub fn l2_scalar(a: &[i32], b: &[i32], _n: usize) -> (r: i128)
    requires
        a@.len() <= MAX_DIM || b@.len() <= MAX_DIM,
    ensures
        r == l2(a@, b@),
        r >= 0,
{
    let n: usize = if a.len() <= b.len() {
        a.len()
    } else {
        b.len()
    };
    let mut acc: i128 = 0;
    let mut i: usize = 0;
    while i < n
        invariant
            i <= n,
            n == common_len(a@, b@),
            n <= MAX_DIM,
            acc == l2_upto(a@, b@, i as nat),
            0 <= acc <= i * (0xFFFF_FFFF * 0xFFFF_FFFF),
        decreases n - i,
    {
        let x: i64 = a[i] as i64;
        let y: i64 = b[i] as i64;
        proof {
            lemma_square_bound(x as int, y as int);
            assert((i + 1) * (0xFFFF_FFFF * 0xFFFF_FFFF) == i * (0xFFFF_FFFF * 0xFFFF_FFFF)
                + 0xFFFF_FFFF * 0xFFFF_FFFF) by (nonlinear_arith);
            assert((i + 1) * (0xFFFF_FFFF * 0xFFFF_FFFF) <= 0xFFFF_FFFF * (0xFFFF_FFFF
                * 0xFFFF_FFFF)) by (nonlinear_arith)
                requires
                    i + 1 <= 0xFFFF_FFFF,
            ;
        }
        let d: i128 = (x - y) as i128;
        acc = acc + d * d;
        i = i + 1;
    }
    acc
}

/// The inner product of two vectors.
pub fn inner_product(a: &[i32], b: &[i32], _n: usize) -> (r: i128)
    requires
        a@.len() <= MAX_DIM || b@.len() <= MAX_DIM,
    ensures
        r == dot(a@, b@),
{
    let n: usize = if a.len() <= b.len() {
        a.len()
    } else {
        b.len()
    };
    let mut acc: i128 = 0;
    let mut i: usize = 0;
    while i < n
        invariant
            i <= n,
            n == common_len(a@, b@),
            n <= MAX_DIM,
            acc == dot_upto(a@, b@, i as nat),
            -(i * (0x8000_0000 * 0x8000_0000)) <= acc <= i * (0x8000_0000 * 0x8000_0000),
        decreases n - i,
    {
        let x: i128 = a[i] as i128;
        let y: i128 = b[i] as i128;
        proof {
            lemma_square_bound(x as int, y as int);
            assert((i + 1) * (0x8000_0000 * 0x8000_0000) == i * (0x8000_0000 * 0x8000_0000)
                + 0x8000_0000 * 0x8000_0000) by (nonlinear_arith);
            assert((i + 1) * (0x8000_0000 * 0x8000_0000) <= 0xFFFF_FFFF * (0x8000_0000
                * 0x8000_0000)) by (nonlinear_arith)
                requires
                    i + 1 <= 0xFFFF_FFFF,
            ;
        }
        acc = acc + x * y;
        i = i + 1;
    }
    acc
}

/// The Euclidean kernel in its scalar form: the negated squared distance.
pub fn simd_euc(a: &[i32], b: &[i32], _n: usize) -> (r: i128)
    requires
        a@.len() <= MAX_DIM || b@.len() <= MAX_DIM,
    ensures
        r == -l2(a@, b@),
        r <= 0,
{
    -l2_scalar(a, b, _n)
}

/// The Euclidean kernel that an index calls.
pub fn euclidean(v1: &[i32], v2: &[i32], n: usize) -> (r: i128)
    requires
        v1@.len() <= MAX_DIM || v2@.len() <= MAX_DIM,
    ensures
        r == similarity_of(MetricFuncs::Euclidean, v1@, v2@),
        r <= 0,
{
    simd_euc(v1, v2, n)
}

/// The similarity of two vectors under a metric, by a direct match on it.
pub fn similarity(kind: MetricFuncs, a: &[i32], b: &[i32]) -> (r: i128)
    requires
        a@.len() <= MAX_DIM || b@.len() <= MAX_DIM,
    ensures
        r == similarity_of(kind, a@, b@),
{
    match kind {
        MetricFuncs::Euclidean => euclidean(a, b, a.len()),
        MetricFuncs::InnerProduct => inner_product(a, b, a.len()),
        MetricFuncs::Cosine => inner_product(a, b, a.len()),
    }
}

impl MetricFuncs {
    /// The tag under which a metric stands in an index header.
    pub open spec fn tag_of(self) -> Seq<char> {
        match self {
            MetricFuncs::Euclidean => "Euclidean"@,
            MetricFuncs::InnerProduct => "InnerProduct"@,
            MetricFuncs::Cosine => "Cosine"@,
        }
    }

    /// The metric that a header's tag names, if it names one.
    pub open spec fn of_tag(tag: Seq<char>) -> Option<MetricFuncs> {
        if tag == "Euclidean"@ {
            Some(MetricFuncs::Euclidean)
        } else if tag == "InnerProduct"@ {
            Some(MetricFuncs::InnerProduct)
        } else if tag == "Cosine"@ {
            Some(MetricFuncs::Cosine)
        } else {
            None
        }
    }

    /// The tag under which this metric stands in an index header.
    pub fn tag(&self) -> (s: String)
        ensures
            s@ == self.tag_of(),
    {
        match self {
            MetricFuncs::Euclidean => String::from_str("Euclidean"),
            MetricFuncs::InnerProduct => String::from_str("InnerProduct"),
            MetricFuncs::Cosine => String::from_str("Cosine"),
        }
    }

    /// Reads a header's tag back.
    pub fn from_tag(tag: &String) -> (r: Option<MetricFuncs>)
        ensures
            r == MetricFuncs::of_tag(tag@),
    {
        if *tag == String::from_str("Euclidean") {
            Some(MetricFuncs::Euclidean)
        } else if *tag == String::from_str("InnerProduct") {
            Some(MetricFuncs::InnerProduct)
        } else if *tag == String::from_str("Cosine") {
            Some(MetricFuncs::Cosine)
        } else {
            None
        }
    }

    /// Every metric is read back from its own tag.
    pub proof fn lemma_tag_round_trip(self)
        ensures
            MetricFuncs::of_tag(self.tag_of()) == Some(self),
    {
        reveal_strlit("Euclidean");
        reveal_strlit("InnerProduct");
        reveal_strlit("Cosine");
        assert("Euclidean"@.len() == 9);
        assert("InnerProduct"@.len() == 12);
        assert("Cosine"@.len() == 6);
    }
}

} // verus!
