use context_brain::db::schema::{
    blob_to_embedding, blob_to_quantized, embedding_to_blob, quantized_to_blob, stored_embedding,
    StoredEmbedding,
};
use context_brain::turboquant::codebooks::{
    dequantize_vector, pack_indices, quantize_scalar, quantize_vector, unpack_indices, Codebook,
};
use context_brain::turboquant::qjl::{qjl_project, row_seed};
use context_brain::turboquant::rotation::{generate_sign_flips, Rng};
use context_brain::turboquant::{mse_bits, next_pow2, QuantMode, QuantizedVector, TurboQuant};

#[test]
fn test_pack_unpack_roundtrip_2bit() {
    let indices: Vec<u8> = (0..100).map(|i| (i % 4) as u8).collect();
    let packed = pack_indices(&indices, 2).unwrap();
    let unpacked = unpack_indices(&packed, 2, 100).unwrap();
    assert_eq!(indices, unpacked);
}

#[test]
fn test_pack_unpack_roundtrip_3bit() {
    let indices: Vec<u8> = (0..100).map(|i| (i % 8) as u8).collect();
    let packed = pack_indices(&indices, 3).unwrap();
    let unpacked = unpack_indices(&packed, 3, 100).unwrap();
    assert_eq!(indices, unpacked);
}

#[test]
fn test_pack_unpack_roundtrip_4bit() {
    let indices: Vec<u8> = (0..100).map(|i| (i % 16) as u8).collect();
    let packed = pack_indices(&indices, 4).unwrap();
    let unpacked = unpack_indices(&packed, 4, 100).unwrap();
    assert_eq!(indices, unpacked);
}

#[test]
fn test_pack_invalid_bitwidth_returns_error() {
    assert!(pack_indices(&[0, 1, 2], 5).is_err());
    assert!(pack_indices(&[0, 1, 2], 0).is_err());
}

#[test]
fn test_compression_ratio() {
    let tq = TurboQuant::new(1024);
    let info = tq.storage_info(2, 1024);

    println!("Original: {} bytes", info.original_bytes);
    println!("Compressed: {} bytes", info.total_bytes);
    let compression_ratio = info.original_bytes as f32 / info.total_bytes as f32;
    println!("Compression ratio: {:.1}x", compression_ratio);

    assert!(compression_ratio > 5.0);
    assert_eq!(info.original_bytes, 4096);
}

#[test]
fn a_zero_vector_has_a_zero_norm() {
    let tq = TurboQuant::new(1024);
    let quantized = tq
        .quantize(
            1024,
            0.0f32.to_bits(),
            &[1.0f32.to_bits(); 1024],
            &codebook(&tq),
            0,
            &[false; 1024],
            2,
            QuantMode::Fast,
        )
        .unwrap();
    assert_eq!(f32::from_bits(quantized.norm), 0.0);
    assert_eq!(quantized.original_dim, 1024);
    assert!(quantized.mse_indices.iter().all(|&b| b == 0));
    assert_eq!(quantized.mse_indices.len(), 256);
}

#[test]
fn quantizing_packs_the_indices() {
    let tq = TurboQuant::new(5);
    assert_eq!(tq.padded_dim, 8);
    let sigma = 1.0 / 8.0f32.sqrt();
    let rotated: Vec<u32> = [-2.0f32, -0.5, 0.5, 2.0, 2.0, 0.5, -0.5, -2.0]
        .iter()
        .map(|x| (x * sigma).to_bits())
        .collect();
    let book = codebook(&tq);
    let q = tq
        .quantize(5, 1.5f32.to_bits(), &rotated, &book, 0, &[true; 8], 2, QuantMode::Fast)
        .unwrap();
    assert_eq!(unpack_indices(&q.mse_indices, 2, 8).unwrap(), vec![0, 1, 2, 3, 3, 2, 1, 0]);
    assert!(q.qjl_bits.is_none());
    let residual = 0.5f32.to_bits();
    let u = tq
        .quantize(5, 1.5f32.to_bits(), &rotated, &book, residual, &[true; 8], 3, QuantMode::Unbiased)
        .unwrap();
    assert_eq!(u.mse_indices, q.mse_indices);
    assert_eq!(u.qjl_bits, Some(vec![0xff]));
    assert_eq!(u.residual_norm, 0.5f32.to_bits());
    let e = tq
        .quantize(5, 1.5f32.to_bits(), &rotated, &book, 0, &[true; 8], 9, QuantMode::Fast)
        .unwrap_err();
    assert_eq!(e.bits, 9);
    let zero = tq.quantize(5, 0, &rotated, &book, 0, &[true; 8], 9, QuantMode::Fast).unwrap();
    assert_eq!(zero.mse_indices, vec![0; 9]);
}

#[test]
fn fewer_indices_than_were_packed_come_back() {
    let indices: Vec<u8> = (0..10).map(|i| (i * 3 % 8) as u8).collect();
    let packed = pack_indices(&indices, 3).unwrap();
    for n in 0..=10 {
        assert_eq!(unpack_indices(&packed, 3, n).unwrap(), indices[..n].to_vec());
    }
}

#[test]
fn a_quantized_vector_survives_its_blob() {
    let tq = TurboQuant::new(8);
    let rotated = [0.1f32, -0.1, 0.1, -0.1, 0.1, -0.1, 0.1, -0.1].map(|x| x.to_bits());
    let residual = 1.0f32.to_bits();
    let q = tq
        .quantize(
            7,
            2.0f32.to_bits(),
            &rotated,
            &codebook(&tq),
            residual,
            &[false; 8],
            3,
            QuantMode::Unbiased,
        )
        .unwrap();
    let back = blob_to_quantized(&quantized_to_blob(&q)).unwrap();
    assert_eq!(back.mse_indices, q.mse_indices);
    assert_eq!(back.norm, q.norm);
    assert_eq!(back.qjl_bits, q.qjl_bits);
    assert_eq!(back.residual_norm, q.residual_norm);
    assert_eq!(back.bits, q.bits);
    assert_eq!(back.mode, q.mode);
    assert_eq!(back.original_dim, q.original_dim);
    assert_eq!(back.padded_dim, q.padded_dim);
    assert!(blob_to_quantized(&[1, 2, 3]).is_none());
}

#[test]
fn an_embedding_survives_its_blob() {
    let v: Vec<u32> = [0.5f32, -1.25, 3.0].iter().map(|x| x.to_bits()).collect();
    let blob = embedding_to_blob(Some(&v)).unwrap();
    let mut expected: Vec<u8> = Vec::new();
    for x in [0.5f32, -1.25, 3.0] {
        expected.extend(x.to_le_bytes());
    }
    assert_eq!(blob, expected);
    assert_eq!(blob_to_embedding(&blob), v);
    assert!(embedding_to_blob(None).is_none());
    assert!(blob_to_embedding(&blob[..5]).is_empty());
}

#[test]
fn scalars_fall_between_boundaries() {
    let b: Vec<u32> = [-1.0f32, 0.0, 1.0].iter().map(|x| x.to_bits()).collect();
    assert_eq!(quantize_scalar((-2.0f32).to_bits(), &b), 0);
    assert_eq!(quantize_scalar((-0.5f32).to_bits(), &b), 1);
    assert_eq!(quantize_scalar(0.5f32.to_bits(), &b), 2);
    assert_eq!(quantize_scalar(9.0f32.to_bits(), &b), 3);
    let v: Vec<u32> = [0.5f32, -9.0].iter().map(|x| x.to_bits()).collect();
    let centroids: Vec<u32> = [-1.5f32, -0.5, 0.5, 1.5].iter().map(|x| x.to_bits()).collect();
    let codebook = Codebook { centroids, boundaries: b, num_levels: 4 };
    let indices = quantize_vector(&v, &codebook);
    assert_eq!(indices, vec![2, 0]);
    assert_eq!(
        dequantize_vector(&indices, &codebook),
        vec![0.5f32.to_bits(), (-1.5f32).to_bits()]
    );
}

#[test]
fn rotation_is_reproducible() {
    let mut a = Rng::from_seed("seed");
    let mut b = Rng::from_seed("seed");
    let mut c = Rng::from_seed("other");
    let first: Vec<u32> = (0..8).map(|_| a.next()).collect();
    let second: Vec<u32> = (0..8).map(|_| b.next()).collect();
    let third: Vec<u32> = (0..8).map(|_| c.next()).collect();
    assert_eq!(first, second);
    assert_ne!(first, third);
    let signs = generate_sign_flips("contexa-turbo-v1", 64);
    assert_eq!(signs.len(), 64);
    assert!(signs.iter().all(|&s| s == 1 || s == -1));
    assert_eq!(TurboQuant::new(64).sign_flips, signs);
    assert_eq!(TurboQuant::default().padded_dim, 1024);
}

#[test]
fn small_helpers() {
    assert_eq!(next_pow2(0), 1);
    assert_eq!(next_pow2(384), 512);
    assert_eq!(next_pow2(512), 512);
    assert_eq!(mse_bits(3, QuantMode::Fast), 3);
    assert_eq!(mse_bits(3, QuantMode::Unbiased), 2);
    assert_eq!(qjl_project(&[true, false, false, false, false, false, false, true, true]), vec![0x81, 0x01]);
    assert!(row_seed("s", 12).contains("12"));
}

const CENTROIDS: [f32; 4] = [-1.5104, -0.4528, 0.4528, 1.5104];
const BOUNDARIES: [f32; 3] = [-0.9816, 0.0, 0.9816];

fn transform(v: &mut [f32]) {
    let n = v.len();
    let mut len = 1;
    while len < n {
        for start in (0..n).step_by(2 * len) {
            for j in start..start + len {
                let (a, b) = (v[j], v[j + len]);
                v[j] = a + b;
                v[j + len] = a - b;
            }
        }
        len *= 2;
    }
    for x in v.iter_mut() {
        *x /= (n as f32).sqrt();
    }
}

fn flip(v: &mut [f32], signs: &[i8]) {
    for (x, s) in v.iter_mut().zip(signs) {
        *x *= *s as f32;
    }
}

fn norm_of(v: &[f32]) -> f32 {
    v.iter().map(|x| x * x).sum::<f32>().sqrt()
}

fn cosine_similarity(a: &[f32], b: &[f32]) -> f32 {
    let dot: f32 = a.iter().zip(b).map(|(x, y)| x * y).sum();
    dot / (norm_of(a) * norm_of(b))
}

fn codebook(tq: &TurboQuant) -> Codebook {
    let sigma = 1.0 / (tq.padded_dim as f32).sqrt();
    Codebook {
        centroids: CENTROIDS.iter().map(|c| (c * sigma).to_bits()).collect(),
        boundaries: BOUNDARIES.iter().map(|b| (b * sigma).to_bits()).collect(),
        num_levels: 4,
    }
}

/// Two bits for each number of a vector.
fn quantize(tq: &TurboQuant, vector: &[f32]) -> QuantizedVector {
    let norm = norm_of(vector);
    let mut rotated = vec![0.0f32; tq.padded_dim];
    for (x, y) in rotated.iter_mut().zip(vector) {
        *x = if norm == 0.0 { 0.0 } else { y / norm };
    }
    flip(&mut rotated, &tq.sign_flips);
    transform(&mut rotated);
    let patterns: Vec<u32> = rotated.iter().map(|x| x.to_bits()).collect();
    let book = codebook(tq);
    let signs = vec![false; tq.padded_dim];
    tq.quantize(vector.len(), norm.to_bits(), &patterns, &book, 0, &signs, 2, QuantMode::Fast)
        .unwrap()
}

fn centroids_of(tq: &TurboQuant, q: &QuantizedVector) -> Vec<f32> {
    let indices = unpack_indices(&q.mse_indices, 2, tq.padded_dim).unwrap();
    dequantize_vector(&indices, &codebook(tq)).iter().map(|c| f32::from_bits(*c)).collect()
}

fn dequantize(tq: &TurboQuant, q: &QuantizedVector) -> Vec<f32> {
    let norm = f32::from_bits(q.norm);
    if norm == 0.0 {
        return vec![0.0; q.original_dim];
    }
    let mut v = centroids_of(tq, q);
    transform(&mut v);
    flip(&mut v, &tq.sign_flips);
    v[..q.original_dim].iter().map(|x| x * norm).collect()
}

#[test]
fn test_quantize_dequantize_roundtrip() {
    let tq = TurboQuant::new(1024);
    let vector: Vec<f32> = (0..1024).map(|i| (i as f32 * 0.7 + 3.14).sin() * 0.03).collect();
    let quantized = quantize(&tq, &vector);
    assert_eq!(quantized.original_dim, 1024);
    assert!(f32::from_bits(quantized.norm) > 0.0);
    let reconstructed = dequantize(&tq, &quantized);
    assert_eq!(reconstructed.len(), 1024);
    let cos_sim = cosine_similarity(&vector, &reconstructed);
    assert!(cos_sim > 0.7, "Expected >0.7, got {}", cos_sim);
}

#[test]
fn test_fast_cosine_similarity() {
    let tq = TurboQuant::new(1024);
    let v1: Vec<f32> = (0..1024).map(|i| (i as f32 * 0.3).sin() * 0.03).collect();
    let v2: Vec<f32> = (0..1024).map(|i| (i as f32 * 0.3 + 0.1).sin() * 0.03).collect();
    let exact_sim = cosine_similarity(&v1, &v2);
    let q2 = quantize(&tq, &v2);
    let mut rotated = v1.clone();
    flip(&mut rotated, &tq.sign_flips);
    transform(&mut rotated);
    let dot: f32 = rotated.iter().zip(centroids_of(&tq, &q2)).map(|(x, c)| x * c).sum();
    let approx_sim = dot / norm_of(&v1);
    let error = (exact_sim - approx_sim).abs();
    assert!(error < 0.3, "Error too large: {}", error);
}

#[test]
fn test_zero_vector() {
    let tq = TurboQuant::new(1024);
    let quantized = quantize(&tq, &vec![0.0f32; 1024]);
    assert_eq!(f32::from_bits(quantized.norm), 0.0);
    assert!(dequantize(&tq, &quantized).iter().all(|&x| x == 0.0));
}

#[test]
fn compressed_embeddings_are_preferred() {
    let tq = TurboQuant::new(8);
    let compressed = quantized_to_blob(&quantize(&tq, &[1.0f32, 2.0, 3.0]));
    let raw = embedding_to_blob(Some(&[1.5f32.to_bits()])).unwrap();
    match stored_embedding(Some(&compressed), Some(&raw)) {
        StoredEmbedding::Compressed(q) => assert_eq!((q.original_dim, q.padded_dim), (3, 8)),
        other => panic!("unexpected {:?}", other),
    }
    match stored_embedding(None, Some(&raw)) {
        StoredEmbedding::Raw(v) => assert_eq!(v, vec![1.5f32.to_bits()]),
        other => panic!("unexpected {:?}", other),
    }
    assert!(matches!(stored_embedding(Some(&[1, 2, 3]), Some(&raw)), StoredEmbedding::Missing));
    assert!(matches!(stored_embedding(None, None), StoredEmbedding::Missing));
}
