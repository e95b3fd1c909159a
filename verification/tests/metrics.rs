use redisxann::metrics;
use redisxann::metrics::MetricFuncs;

#[test]
fn diff_is_zero() {
    let v1 = vec![1; 512];
    let v2 = vec![1; 512];
    let r2 = metrics::euclidean(&v1, &v2, 512);
    assert_eq!(r2, 0);
    let r3 = metrics::simd_euc(&v1, &v2, 512);
    assert_eq!(r3, 0);
}

#[test]
fn diff_is_512() {
    let v1 = vec![0; 512];
    let v2 = vec![1; 512];
    let r2 = metrics::euclidean(&v1, &v2, 512);
    assert_eq!(r2, -512);
    let r3 = metrics::simd_euc(&v1, &v2, 512);
    assert_eq!(r3, -512);
}

#[test]
fn diff_is_512_2_x512() {
    let v1 = vec![0; 512];
    let v2 = vec![512; 512];
    let r2 = metrics::euclidean(&v1, &v2, 512);
    assert_eq!(r2, -134217728);
    let r3 = metrics::simd_euc(&v1, &v2, 512);
    assert_eq!(r3, -134217728);
}

#[test]
fn diff_non_x32() {
    let v1 = vec![0; 33];
    let v2 = vec![1; 33];
    let r1 = metrics::euclidean(&v1, &v2, 33);
    assert_eq!(r1, -33);
    let r2 = metrics::simd_euc(&v1, &v2, 33);
    assert_eq!(r2, -33);
}

#[test]
fn squared_distance_is_exact() {
    let a = vec![3, -4, 10];
    let b = vec![0, 0, 7];
    assert_eq!(metrics::l2_scalar(&a, &b, 3), 9 + 16 + 9);
    assert_eq!(metrics::simd_euc(&a, &b, 3), -34);
    assert_eq!(metrics::similarity(MetricFuncs::Euclidean, &a, &b), -34);
}

#[test]
fn squared_distance_of_extremes_fits() {
    let a = vec![i32::MAX, i32::MIN];
    let b = vec![i32::MIN, i32::MAX];
    let d: i128 = 4294967295;
    assert_eq!(metrics::l2_scalar(&a, &b, 2), 2 * d * d);
}

#[test]
fn inner_product_is_exact() {
    let a = vec![1, 2, 3];
    let b = vec![4, -5, 6];
    assert_eq!(metrics::inner_product(&a, &b, 3), 4 - 10 + 18);
    assert_eq!(metrics::similarity(MetricFuncs::InnerProduct, &a, &b), 12);
    assert_eq!(metrics::similarity(MetricFuncs::Cosine, &a, &b), 12);
}

#[test]
fn kernels_read_the_shared_components() {
    let a = vec![1, 2, 3, 100];
    let b = vec![1, 2, 5];
    assert_eq!(metrics::l2_scalar(&a, &b, 4), 4);
    assert_eq!(metrics::inner_product(&a, &b, 4), 1 + 4 + 15);
    let none: Vec<i32> = Vec::new();
    assert_eq!(metrics::l2_scalar(&a, &none, 0), 0);
}

#[test]
fn metric_tags_come_back() {
    for kind in [MetricFuncs::Euclidean, MetricFuncs::InnerProduct, MetricFuncs::Cosine] {
        assert_eq!(MetricFuncs::from_tag(&kind.tag()), Some(kind));
    }
    assert_eq!(MetricFuncs::Euclidean.tag(), "Euclidean");
    assert_eq!(MetricFuncs::from_tag(&"Manhattan".to_string()), None);
}
