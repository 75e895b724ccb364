use risc0_zkp_verify::field::{Fp, P};
use risc0_zkp_verify::iop::{ReadIOP, WriteIOP};
use risc0_zkp_verify::merkle::{MerkleTreeParams, MerkleTreeProver, MerkleTreeVerifier};
use risc0_zkp_verify::{log2_ceil, VerifyError};

fn sample_matrix(rows: usize, cols: usize, seed: u64) -> Vec<Fp> {
    let mut state = seed;
    let mut out = Vec::new();
    for _ in 0..rows * cols {
        state = state.wrapping_mul(6364136223846793005).wrapping_add(1442695040888963407);
        out.push(Fp::new((state >> 33) as u32));
    }
    out
}

fn row(matrix: &[Fp], rows: usize, cols: usize, idx: usize) -> Vec<Fp> {
    (0..cols).map(|j| matrix[j * rows + idx]).collect()
}

#[test]
fn log2_ceil_values() {
    assert_eq!(log2_ceil(0), 0);
    assert_eq!(log2_ceil(1), 0);
    assert_eq!(log2_ceil(2), 1);
    assert_eq!(log2_ceil(3), 2);
    assert_eq!(log2_ceil(4), 2);
    assert_eq!(log2_ceil(5), 3);
    assert_eq!(log2_ceil(1 << 20), 20);
    assert_eq!(log2_ceil((1 << 20) + 1), 21);
}

#[test]
fn params_shape_for_all_sizes() {
    for k in 1..=20usize {
        for queries in [0usize, 1, 3, 4, 50, 1 << 21] {
            let p = MerkleTreeParams::new(1 << k, 3, queries).unwrap();
            assert_eq!(p.layers, k);
            assert_eq!(p.top_size, 1 << p.top_layer);
            assert!(p.top_size <= queries.max(1));
            assert!(p.top_layer < p.layers);
        }
    }
}

#[test]
fn params_example() {
    let p = MerkleTreeParams::new(8, 1, 4).unwrap();
    assert_eq!(p.layers, 3);
    assert_eq!(p.top_layer, 2);
    assert_eq!(p.top_size, 4);
    let q = MerkleTreeParams::new(1024, 2, 50).unwrap();
    assert_eq!(q.layers, 10);
    assert_eq!(q.top_layer, 5);
    assert_eq!(q.top_size, 32);
    let one = MerkleTreeParams::new(1, 1, 50).unwrap();
    assert_eq!(one.layers, 0);
    assert_eq!(one.top_layer, 0);
    assert_eq!(one.top_size, 1);
}

#[test]
fn params_reject_non_power_of_two() {
    assert_eq!(MerkleTreeParams::new(0, 1, 4), Err(VerifyError::ConfigurationError));
    assert_eq!(MerkleTreeParams::new(6, 1, 4), Err(VerifyError::ConfigurationError));
    assert_eq!(MerkleTreeParams::new(1 << 32, 1, 4), Err(VerifyError::ConfigurationError));
}

#[test]
fn round_trip_every_row() {
    let (rows, cols) = (32usize, 3usize);
    let matrix = sample_matrix(rows, cols, 7);
    let prover = MerkleTreeProver::new(&matrix, rows, cols, 4).unwrap();
    let mut w = WriteIOP::new();
    prover.commit_top(&mut w);
    for idx in 0..rows {
        let opened = prover.open(&mut w, idx);
        assert_eq!(opened, row(&matrix, rows, cols, idx));
    }
    let mut r = ReadIOP::new(w.proof.clone());
    let verifier = MerkleTreeVerifier::new(&mut r, rows, cols, 4).unwrap();
    assert_eq!(verifier.root(), prover.root());
    assert_eq!(r.commits, w.commits);
    for idx in 0..rows {
        let got = verifier.verify(&mut r, idx).unwrap();
        assert_eq!(got, row(&matrix, rows, cols, idx));
    }
    assert_eq!(r.pos, w.proof.len());
}

#[test]
fn tampered_row_value_is_rejected() {
    let (rows, cols) = (16usize, 2usize);
    let matrix = sample_matrix(rows, cols, 11);
    let prover = MerkleTreeProver::new(&matrix, rows, cols, 50).unwrap();
    for idx in 0..rows {
        for col in 0..cols {
            let mut w = WriteIOP::new();
            prover.commit_top(&mut w);
            let start = w.proof.len();
            prover.open(&mut w, idx);
            let mut words = w.proof.clone();
            words[start + col] = (words[start + col] + 1) % P;
            let mut r = ReadIOP::new(words);
            let verifier = MerkleTreeVerifier::new(&mut r, rows, cols, 50).unwrap();
            assert_eq!(verifier.verify(&mut r, idx), Err(VerifyError::MerkleMismatch));
        }
    }
}

#[test]
fn tampered_sibling_is_rejected() {
    let (rows, cols) = (64usize, 1usize);
    let matrix = sample_matrix(rows, cols, 3);
    let prover = MerkleTreeProver::new(&matrix, rows, cols, 4).unwrap();
    let levels = prover.params.layers - prover.params.top_layer;
    assert_eq!(levels, 4);
    for idx in [0usize, 5, 63] {
        for level in 0..levels {
            let mut w = WriteIOP::new();
            prover.commit_top(&mut w);
            let start = w.proof.len();
            prover.open(&mut w, idx);
            let mut words = w.proof.clone();
            let at = start + cols + 8 * level + 3;
            words[at] ^= 1;
            let mut r = ReadIOP::new(words);
            let verifier = MerkleTreeVerifier::new(&mut r, rows, cols, 4).unwrap();
            assert_eq!(verifier.verify(&mut r, idx), Err(VerifyError::MerkleMismatch));
        }
    }
}

#[test]
fn verify_index_out_of_range() {
    let matrix = sample_matrix(8, 1, 5);
    let prover = MerkleTreeProver::new(&matrix, 8, 1, 4).unwrap();
    let mut w = WriteIOP::new();
    prover.commit_top(&mut w);
    prover.open(&mut w, 0);
    let mut r = ReadIOP::new(w.proof.clone());
    let verifier = MerkleTreeVerifier::new(&mut r, 8, 1, 4).unwrap();
    assert_eq!(verifier.verify(&mut r, 8), Err(VerifyError::IndexOutOfRange));
}

#[test]
fn truncated_transcript_underflows() {
    let matrix = sample_matrix(16, 2, 9);
    let prover = MerkleTreeProver::new(&matrix, 16, 2, 2).unwrap();
    let mut w = WriteIOP::new();
    prover.commit_top(&mut w);
    let commit_len = w.proof.len();
    prover.open(&mut w, 3);
    let mut short = w.proof.clone();
    short.pop();
    let mut r = ReadIOP::new(short);
    let verifier = MerkleTreeVerifier::new(&mut r, 16, 2, 2).unwrap();
    assert_eq!(verifier.verify(&mut r, 3), Err(VerifyError::TranscriptUnderflow));
    let mut r2 = ReadIOP::new(w.proof[..commit_len - 1].to_vec());
    assert!(matches!(
        MerkleTreeVerifier::new(&mut r2, 16, 2, 2),
        Err(VerifyError::TranscriptUnderflow)
    ));
}

#[test]
fn prover_rejects_bad_shapes() {
    let matrix = sample_matrix(8, 2, 1);
    assert!(matches!(
        MerkleTreeProver::new(&matrix, 8, 3, 4),
        Err(VerifyError::ConfigurationError)
    ));
    assert!(matches!(
        MerkleTreeProver::new(&matrix, 6, 2, 4),
        Err(VerifyError::ConfigurationError)
    ));
}

#[test]
fn end_to_end_small_tree() {
    let p = MerkleTreeParams::new(8, 1, 4).unwrap();
    assert_eq!((p.layers, p.top_layer, p.top_size), (3, 2, 4));
    let matrix: Vec<Fp> = (1..=8u32).map(Fp::new).collect();
    let prover = MerkleTreeProver::new(&matrix, 8, 1, 4).unwrap();
    let mut w = WriteIOP::new();
    prover.commit_top(&mut w);
    assert_eq!(w.proof.len(), 8 * 4);
    let opened = prover.open(&mut w, 5);
    assert_eq!(opened, vec![Fp::new(6)]);
    assert_eq!(w.proof.len(), 8 * 4 + 1 + 8);
    let mut r = ReadIOP::new(w.proof.clone());
    let verifier = MerkleTreeVerifier::new(&mut r, 8, 1, 4).unwrap();
    assert_eq!(verifier.root(), prover.root());
    assert_eq!(r.commits.len(), 1);
    assert_eq!(r.commits[0], *prover.root());
    assert_eq!(verifier.verify(&mut r, 5), Ok(vec![Fp::new(6)]));
}

#[test]
fn distinct_rows_give_distinct_roots() {
    let a: Vec<Fp> = (1..=8u32).map(Fp::new).collect();
    let mut b = a.clone();
    b[2] = Fp::new(100);
    let pa = MerkleTreeProver::new(&a, 8, 1, 4).unwrap();
    let pb = MerkleTreeProver::new(&b, 8, 1, 4).unwrap();
    assert_ne!(pa.root(), pb.root());
    assert_ne!(pa.tree[8], pa.tree[9]);
    assert_ne!(pa.tree[4], pa.tree[8]);
}
