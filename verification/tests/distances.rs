use hnsw::metric::{Metric, SquaredEuclidean};

const SIGN: u64 = 0x8000_0000_0000_0000;

/// Order-preserving encoding of an f64 into a u64 key.
fn key(f: f64) -> u64 {
    let b = f.to_bits() as i64;
    if b < 0 {
        !(b as u64)
    } else {
        (b as u64) | SIGN
    }
}

/// Inverse of `key`.
fn unkey(k: u64) -> f64 {
    if k & SIGN != 0 {
        f64::from_bits(k ^ SIGN)
    } else {
        f64::from_bits(!k)
    }
}

/// Encode an f64 vector into the index's integer coordinates, bitwise.
fn enc(xs: &[f64]) -> Vec<i64> {
    xs.iter().map(|x| x.to_bits() as i64).collect()
}

fn dec1(x: i64) -> f64 {
    f64::from_bits(x as u64)
}

/// Squared Euclidean distance over bit-encoded f64 coordinates.
struct EncodedEuclidean;

impl Metric for EncodedEuclidean {
    fn distance(&self, x: &Vec<i64>, y: &Vec<i64>) -> u64 {
        let d: f64 = x
            .iter()
            .zip(y.iter())
            .map(|(&xi, &yi)| (dec1(xi) - dec1(yi)) * (dec1(xi) - dec1(yi)))
            .sum();
        key(d)
    }
}

/// Cosine distance over bit-encoded f64 coordinates.
struct EncodedCosine;

impl Metric for EncodedCosine {
    fn distance(&self, x: &Vec<i64>, y: &Vec<i64>) -> u64 {
        let (mut x_norm, mut y_norm, mut dot) = (0.0, 0.0, 0.0);
        for (&xi, &yi) in x.iter().zip(y.iter()) {
            let xf = dec1(xi);
            let yf = dec1(yi);
            x_norm += xf * xf;
            y_norm += yf * yf;
            dot += xf * yf;
        }
        key(1.0 - dot / (x_norm.sqrt() * y_norm.sqrt()))
    }
}

#[test]
fn test_squared_euclidean_zero_distance() {
    let x = vec![1, 2, 3];
    let y = vec![1, 2, 3];
    assert_eq!(SquaredEuclidean.distance(&x, &y), 0);
}

#[test]
fn test_squared_euclidean_zero_values() {
    let x = vec![0, 0, 0];
    let y = vec![0, 0, 0];
    assert_eq!(SquaredEuclidean.distance(&x, &y), 0);
}

#[test]
fn test_squared_euclidean_integers() {
    let x = vec![1, -2, 3];
    let y = vec![-1, 2, -3];
    assert_eq!(SquaredEuclidean.distance(&x, &y), 56);
}

#[test]
fn test_squared_euclidean_floating_point() {
    let x = enc(&[1.0, 2.0, 3.0]);
    let y = enc(&[4.0, 5.0, 6.0]);
    let expected: f64 = unkey(EncodedEuclidean.distance(&x, &y)) - 27.0;
    assert!(expected.abs() < f64::EPSILON);
}

#[test]
fn test_squared_euclidean_saturates() {
    let x = vec![i64::MIN, i64::MIN];
    let y = vec![i64::MAX, i64::MAX];
    assert_eq!(SquaredEuclidean.distance(&x, &y), u64::MAX);
}

#[test]
fn test_squared_euclidean_shorter_vector_wins() {
    let x = vec![3, 100];
    let y = vec![0];
    assert_eq!(SquaredEuclidean.distance(&x, &y), 9);
}

#[test]
fn test_cosine_orthogonal_vectors() {
    let x = enc(&[1.0, 0.0, 0.0]);
    let y = enc(&[0.0, 1.0, 0.0]);
    assert!((unkey(EncodedCosine.distance(&x, &y)) - 1.0) < f64::EPSILON);
}

#[test]
fn test_cosine_identical_vectors() {
    let x = enc(&[1.0, 2.0, 3.0]);
    assert!(unkey(EncodedCosine.distance(&x, &x)).abs() < f64::EPSILON);
}

#[test]
fn test_cosine_opposite_vectors() {
    let x = enc(&[1.0, 2.0, 3.0]);
    let y = enc(&[-1.0, -2.0, -3.0]);
    assert!((unkey(EncodedCosine.distance(&x, &y)) - 2.0).abs() < f64::EPSILON);
}

#[test]
fn test_cosine_zero_vector() {
    let x = enc(&[0.0, 0.0, 0.0]);
    let y = enc(&[1.0, 2.0, 3.0]);
    assert!(unkey(EncodedCosine.distance(&x, &y)).is_nan());
}

#[test]
fn test_cosine() {
    let x = enc(&[1.0, 2.0, 3.0]);
    let y = enc(&[4.0, 5.0, 6.0]);
    let expected = 0.025368153802923787;
    assert!((unkey(EncodedCosine.distance(&x, &y)) - expected).abs() < 1e-16);
}
