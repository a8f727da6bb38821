use hnsw::hnsw::HNSW;
use hnsw::metric::Metric;
use rand::rngs::SmallRng;
use rand::SeedableRng;

const SEED: u64 = 1234;

const SIGN: u64 = 0x8000_0000_0000_0000;

/// Order-preserving encoding of an f64 into a u64 key.
fn key(f: f64) -> u64 {
    let b = f.to_bits() as i64;
    if b < 0 {
        !(b as u64)
    } else {
        (b as u64) | SIGN
    }
}

/// Inverse of `key`.
fn unkey(k: u64) -> f64 {
    if k & SIGN != 0 {
        f64::from_bits(k ^ SIGN)
    } else {
        f64::from_bits(!k)
    }
}

/// Encode an f64 vector into the index's integer coordinates, bitwise.
fn enc(xs: &[f64]) -> Vec<i64> {
    xs.iter().map(|x| x.to_bits() as i64).collect()
}

fn dec1(x: i64) -> f64 {
    f64::from_bits(x as u64)
}

/// Squared Euclidean distance over bit-encoded f64 coordinates, reported
/// as an order-preserving key.
struct EncodedEuclidean;

impl Metric for EncodedEuclidean {
    fn distance(&self, x: &Vec<i64>, y: &Vec<i64>) -> u64 {
        let d: f64 = x
            .iter()
            .zip(y.iter())
            .map(|(&xi, &yi)| (dec1(xi) - dec1(yi)) * (dec1(xi) - dec1(yi)))
            .sum();
        key(d)
    }
}

fn fresh(connections: usize, ef: usize) -> HNSW<EncodedEuclidean> {
    let rng = SmallRng::seed_from_u64(SEED);
    HNSW::new(connections, ef, EncodedEuclidean, rng)
}

#[test]
fn test_new() {
    let index = fresh(1, 1);

    assert!(index.is_empty());
    assert_eq!(index.len(), 0);
    assert_eq!(index.num_levels(), 0);
}

#[test]
fn test_insert() {
    let mut index = fresh(8, 8);

    let vector1 = enc(&[1., 2., 3.]);
    let vector2 = enc(&[4., 5., 6.]);
    let vector3 = enc(&[7., 8., 9.]);

    index.insert(&vector1);
    index.insert(&vector2);
    index.insert(&vector3);

    assert!(!index.is_empty());
    assert_eq!(index.len(), 3);
    let stored: Vec<&Vec<i64>> = (0..index.len()).map(|id| index.get_vector(id).unwrap()).collect();
    assert!(stored.iter().any(|v| **v == vector1));
    assert!(stored.iter().any(|v| **v == vector2));
    assert!(stored.iter().any(|v| **v == vector3));
}

#[test]
fn test_insert_iterator() {
    let mut index = fresh(8, 8);
    let batch: Vec<Vec<i64>> = (0..3).map(|i| enc(&[i as f64; 2])).collect();

    index.insert_batch(&batch);

    assert!(!index.is_empty());
    assert_eq!(index.len(), 3);
}

#[test]
fn test_level_density_decay() {
    let mut index = fresh(8, 8);

    let batch: Vec<Vec<i64>> = (0..10).map(|i| enc(&[i as f64; 2])).collect();
    index.insert_batch(&batch);

    // check that the number of nodes in levels is smaller the higher the level
    let mut structure_ok = true;
    for l in 1..index.num_levels() {
        if index.level_len(l - 1) < index.level_len(l) {
            structure_ok = false;
        }
    }

    assert!(structure_ok);
}

#[test]
fn test_max_connections() {
    let mut index = fresh(8, 8);

    let batch: Vec<Vec<i64>> = (0..10).map(|i| enc(&[i as f64; 2])).collect();
    index.insert_batch(&batch);

    let mut structure_ok = true;
    for level_index in 0..index.num_levels() {
        let max_connections = if level_index > 0 { 12 } else { 16 };
        for id in index.level_ids(level_index) {
            let edges = index.get_neighbors(level_index, id).unwrap();
            if edges.len() > max_connections {
                structure_ok = false;
            }
        }
    }

    assert!(structure_ok);
}

#[test]
fn test_search_empty() {
    let mut index = fresh(8, 8);
    let vector = enc(&[1., 2., 3.]);

    assert!(index.search(&vector, 1).is_err());
}

#[test]
fn test_search_empty_message() {
    let mut index = fresh(8, 8);
    let vector = enc(&[1., 2., 3.]);

    assert_eq!(index.search(&vector, 1).unwrap_err(), "index is empty");
}

#[test]
fn test_search_exact() {
    let mut index = fresh(8, 8);
    let vector = enc(&[1., 2., 3.]);

    index.insert(&vector);
    let result = index.search(&vector, 1).unwrap();

    assert_eq!(result.len(), 1);
    assert_eq!(result[0].vector, vector);
    assert!(unkey(result[0].distance).abs() < f64::EPSILON);
}

#[test]
fn test_search() {
    let mut index = fresh(8, 8);

    let vector1 = enc(&[1., 2., 3.]);
    let vector2 = enc(&[0., 0., 0.]);
    let vector3 = enc(&[10., 20., 30.]);

    index.insert(&vector1);
    index.insert(&vector2);
    index.insert(&vector3);

    let query = enc(&[1.1, 2.1, 3.1]);
    let result = index.search(&query, 3).unwrap();

    assert_eq!(result.len(), 3);
    let found: Vec<&Vec<i64>> = result.iter().map(|r| &r.vector).collect();
    assert_eq!(found, vec![&vector1, &vector2, &vector3]);
}

#[test]
fn test_self_query_distance_zero() {
    let mut index = fresh(8, 8);

    let vectors: Vec<Vec<i64>> = vec![
        enc(&[1., 2., 3.]),
        enc(&[0., 0., 0.]),
        enc(&[10., 20., 30.]),
    ];
    for v in &vectors {
        index.insert(v);
    }

    for v in &vectors {
        let result = index.search(v, 1).unwrap();
        assert_eq!(result[0].vector, *v);
        assert!(unkey(result[0].distance).abs() < f64::EPSILON);
    }
}

#[test]
fn test_recall_all_points() {
    let mut index = fresh(8, 8);

    let batch: Vec<Vec<i64>> = (0..10).map(|i| enc(&[i as f64; 2])).collect();
    index.insert_batch(&batch);

    let query = enc(&[5.0, 5.0]);
    let result = index.search(&query, 10).unwrap();

    assert_eq!(result.len(), 10);
    for v in &batch {
        assert!(result.iter().any(|r| r.vector == *v));
    }
}

#[test]
fn test_search_sorted_by_distance() {
    let mut index = fresh(8, 8);

    let batch: Vec<Vec<i64>> = (0..10).map(|i| enc(&[i as f64; 2])).collect();
    index.insert_batch(&batch);

    let query = enc(&[3.2, 3.2]);
    let result = index.search(&query, 5).unwrap();

    assert_eq!(result.len(), 5);
    for w in result.windows(2) {
        assert!(unkey(w[0].distance) <= unkey(w[1].distance));
    }
}

#[test]
fn test_clear() {
    let mut index = fresh(8, 8);

    let batch: Vec<Vec<i64>> = (0..10).map(|i| enc(&[i as f64; 2])).collect();
    index.insert_batch(&batch);

    assert_eq!(index.len(), 10);

    index.clear();

    assert!(index.is_empty());
    assert_eq!(index.len(), 0);
}

#[test]
fn test_clear_then_reinsert() {
    let mut index = fresh(8, 8);

    let batch: Vec<Vec<i64>> = (0..10).map(|i| enc(&[i as f64; 2])).collect();
    index.insert_batch(&batch);
    index.clear();

    assert_eq!(index.len(), 0);
    assert_eq!(index.num_levels(), 0);

    index.insert_batch(&batch);

    assert_eq!(index.len(), 10);
    assert!(index.num_levels() >= 1);
    assert_eq!(index.level_len(0), 10);
}
