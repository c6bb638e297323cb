use low_degree_test::errors::{ProveError, ValidationError};
use low_degree_test::field::from_bytes_raw;
use low_degree_test::low_degree_proof::LowDegreeProof;
use low_degree_test::merkle::MerkleTree;
use low_degree_test::params::get_rounds_count;
use low_degree_test::prove::prover_i128;
use low_degree_test::verify::verify_i128;

#[test]
fn get_rounds_count_test() {
    assert_eq!((3, 0), get_rounds_count(128, 7, 10));
    assert_eq!((3, 0), get_rounds_count(128, 7, 16));
    assert_eq!((2, 1), get_rounds_count(128, 7, 17));
    assert_eq!((2, 1), get_rounds_count(128, 7, 32));
    assert_eq!((1, 3), get_rounds_count(128, 7, 33));
    assert_eq!((1, 3), get_rounds_count(128, 7, 63));
    assert_eq!((1, 3), get_rounds_count(128, 7, 64));
    assert_eq!((3, 0), get_rounds_count(256, 7, 10));
    assert_eq!((4, 0), get_rounds_count(256, 15, 10));
    assert_eq!((4, 0), get_rounds_count(256, 15, 16));
    assert_eq!((3, 1), get_rounds_count(256, 15, 17));
    assert_eq!((3, 1), get_rounds_count(256, 15, 32));
    assert_eq!((2, 3), get_rounds_count(256, 15, 33));
    assert_eq!((14, 3), get_rounds_count(1048576, 65535, 50));
    assert_eq!((14, 3), get_rounds_count(1048576, 65535, 64));
    assert_eq!((13, 7), get_rounds_count(1048576, 65535, 65));
}

#[test]
fn generate_proof_small_i128() {
    let field_q: i128 = 101;
    let primitive_root_of_unity: i128 = 10;
    let power_series: Vec<i128> = vec![1, 10, 100, 91];
    assert_eq!(4, power_series.len());
    let mut output: Vec<u8> = vec![];

    // corresponds to the polynomial P(x) = x
    let y_values = power_series;
    let max_degree = 1;
    let s = 2; // The security factor
    let mut proof: LowDegreeProof = prover_i128(
        &y_values,
        field_q,
        max_degree,
        s,
        &mut output,
        primitive_root_of_unity,
    )
    .unwrap();
    assert_eq!(1, proof.max_degree);
    assert_eq!(0, proof.max_degree_of_last_round);
    assert_eq!(4, proof.codeword_size);
    assert_eq!(10, proof.primitive_root_of_unity);
    assert_eq!(1, proof.rounds_count);
    assert_eq!(2, proof.s);
    assert_eq!(1, proof.ab_proofs.len());
    assert_eq!(1, proof.c_proofs.len());
    assert_eq!(2, proof.merkle_roots.len());

    // Verify that abc indices return a value matching that in the
    // authentication paths
    let indicies_round_0 = proof.get_abc_indices(0).unwrap();
    let selected_ab_values: Vec<(i128, i128)> = indicies_round_0
        .iter()
        .map(|i| (y_values[i.0], y_values[i.1]))
        .collect::<Vec<(i128, i128)>>();
    for i in 0..(proof.ab_proofs[0].len() / 2) {
        assert_eq!(selected_ab_values[i].0, proof.ab_proofs[0][2 * i].get_value());
        assert_eq!(selected_ab_values[i].1, proof.ab_proofs[0][2 * i + 1].get_value());
    }

    // Verify that the ab_indices are consistent with the abc indices
    let indicies_round_0_alt = proof.get_ab_indices(0).unwrap();
    assert_eq!(2 * indicies_round_0.len(), indicies_round_0_alt.len());
    for i in 0..indicies_round_0.len() {
        assert_eq!(indicies_round_0_alt[2 * i], indicies_round_0[i].0);
        assert_eq!(indicies_round_0_alt[2 * i + 1], indicies_round_0[i].1);
    }

    let (mut deserialized_proof, _): (LowDegreeProof, usize) =
        LowDegreeProof::from_serialization(output.clone(), 0).unwrap();
    assert_eq!(1, deserialized_proof.max_degree);
    assert_eq!(4, deserialized_proof.codeword_size);
    assert_eq!(10, deserialized_proof.primitive_root_of_unity);
    assert_eq!(1, deserialized_proof.rounds_count);
    assert_eq!(2, deserialized_proof.s);
    assert_eq!(1, deserialized_proof.ab_proofs.len());
    assert_eq!(1, deserialized_proof.c_proofs.len());
    assert_eq!(2, deserialized_proof.merkle_roots.len());
    assert_eq!(proof.ab_proofs, deserialized_proof.ab_proofs);
    assert_eq!(proof.c_proofs, deserialized_proof.c_proofs);
    assert_eq!(proof.index_picker_preimage, deserialized_proof.index_picker_preimage);
    assert_eq!(Ok(()), verify_i128(proof, field_q));

    // Change one of the values in a leaf in the committed Merkle tree,
    // and verify that the Merkle proof fails
    output = vec![];
    proof = prover_i128(
        &y_values,
        field_q,
        max_degree,
        s,
        &mut output,
        primitive_root_of_unity,
    )
    .unwrap();
    proof.ab_proofs[0][1].value = 237;
    assert_eq!(Err(ValidationError::BadMerkleProof), verify_i128(proof, field_q));

    // Verify that the proof still works if the output vector is
    // non-empty at the start of the proof building
    output = vec![145, 96];
    proof = prover_i128(
        &y_values,
        field_q,
        max_degree,
        s,
        &mut output,
        primitive_root_of_unity,
    )
    .unwrap();
    deserialized_proof = LowDegreeProof::from_serialization(output.clone(), 2).unwrap().0;
    assert_eq!(deserialized_proof, proof);
    assert_eq!(Ok(()), verify_i128(deserialized_proof, field_q));
    assert_eq!(Ok(()), verify_i128(proof, field_q));
}

#[test]
fn generate_proof_cubica_i128() {
    // An order-16 subgroup: 40 generates it modulo the prime 113.
    let field_q: i128 = 113;
    let primitive_root_of_unity: i128 = 40;
    let mut domain: Vec<i128> = Vec::new();
    let mut x: i128 = 1;
    for _ in 0..16 {
        domain.push(x);
        x = x * primitive_root_of_unity % field_q;
    }
    assert_eq!(16, domain.len());
    assert_eq!(1, domain[0]);
    assert_ne!(1, domain[8]);

    // coefficients: vec![6, 0, 2, 5] => P(x) = 5x^3 + 2x^2 + 6
    let mut y_values = domain
        .iter()
        .map(|&x| ((6 + x * x * (2 + 5 * x)) % field_q + field_q) % field_q)
        .collect::<Vec<i128>>();

    let max_degree = 3;
    let s = 6;
    let mut output: Vec<u8> = vec![124, 62, 98, 10, 207];
    let mut proof: LowDegreeProof = prover_i128(
        &y_values,
        field_q,
        max_degree,
        s,
        &mut output,
        primitive_root_of_unity,
    )
    .unwrap();
    assert_eq!(proof, LowDegreeProof::from_serialization(output.clone(), 5).unwrap().0);
    assert_eq!(Ok(()), verify_i128(proof.clone(), field_q));

    // Change a few y values such that the codeword no longer
    // corresponds to a polynomial and verify that the test fails
    output = vec![];
    let original_y_values = y_values.clone();
    for j in 3..7 {
        y_values[j] = (y_values[j] + 1) % field_q;
    }
    proof = prover_i128(
        &y_values,
        field_q,
        max_degree,
        s,
        &mut output,
        primitive_root_of_unity,
    )
    .unwrap();
    assert_eq!(Err(ValidationError::LastIterationTooHighDegree), verify_i128(proof.clone(), field_q));

    // make a proof with a too low max_degree parameter and verify that
    // it fails verification with the expected output
    let wrong_max_degree = 1;
    output = vec![];
    proof = prover_i128(
        &original_y_values,
        field_q,
        wrong_max_degree,
        s,
        &mut output,
        primitive_root_of_unity,
    )
    .unwrap();
    assert_eq!(Err(ValidationError::LastIterationTooHighDegree), verify_i128(proof.clone(), field_q));
}

#[test]
fn generate_proof_16_alt_i128() {
    // field = mod 193; root = 64 generates the order-16 subgroup
    let field_q: i128 = 193;
    let primitive_root_of_unity: i128 = 64;
    let mut domain: Vec<i128> = Vec::new();
    let mut x: i128 = 1;
    for _ in 0..16 {
        domain.push(x);
        x = x * primitive_root_of_unity % field_q;
    }
    assert_eq!(16, domain.len());
    assert_eq!(
        vec![1, 64, 43, 50, 112, 27, 184, 3, 192, 129, 150, 143, 81, 166, 9, 190],
        domain
    );
    let mut output: Vec<u8> = vec![];

    // corresponds to the polynomial P(x) = x
    let max_degree = 1;
    let s = 2;
    let y_values = domain;
    let proof = prover_i128(
        &y_values,
        field_q,
        max_degree,
        s,
        &mut output,
        primitive_root_of_unity,
    )
    .unwrap();
    assert_eq!(proof, LowDegreeProof::from_serialization(output.clone(), 0).unwrap().0);
    assert_eq!(Ok(()), verify_i128(proof, field_q));
}

/// A small deterministic generator for pseudo-random coefficients.
fn lcg_numbers(count: usize, modulus: i128) -> Vec<i128> {
    let mut state: u64 = 0x853c_49e6_748f_ea9b;
    let mut r: Vec<i128> = Vec::new();
    for _ in 0..count {
        state = state.wrapping_mul(6364136223846793005).wrapping_add(1442695040888963407);
        r.push(((state >> 16) as i128) % modulus);
    }
    r
}

/// Evaluates a polynomial over the whole power-series domain.
fn evaluate_on_domain(coefficients: &[i128], modulus: i128, root: i128, size: usize) -> Vec<i128> {
    let mut y_values: Vec<i128> = Vec::with_capacity(size);
    let mut x: i128 = 1;
    for _ in 0..size {
        let mut acc: i128 = 0;
        for &c in coefficients.iter().rev() {
            acc = (acc * x + c) % modulus;
        }
        y_values.push(acc);
        x = x * root % modulus;
    }
    y_values
}

#[test]
fn generate_proof_1024_i128() {
    let size: usize = 1 << 14;
    let max_degree: usize = 1023;
    let field_q: i128 = 65537;
    let primitive_root_of_unity: i128 = 81;
    let coefficients = lcg_numbers(max_degree + 1, field_q);
    let mut y_values = evaluate_on_domain(&coefficients, field_q, primitive_root_of_unity, size);
    assert_eq!(size, y_values.len());

    let mut output: Vec<u8> = vec![1, 2];

    let s = 9;
    let mut proof = prover_i128(
        &y_values,
        field_q,
        max_degree as u32,
        s,
        &mut output,
        primitive_root_of_unity,
    )
    .unwrap();
    assert_eq!(proof, LowDegreeProof::from_serialization(output.clone(), 2).unwrap().0);
    assert_eq!(Ok(()), verify_i128(proof, field_q));

    // Verify that a 1023 degree polynomial cannot be verified as a
    // degree 511 polynomial
    output = vec![1, 2];
    proof = prover_i128(&y_values, field_q, 511, s, &mut output, primitive_root_of_unity).unwrap();
    assert_eq!(Err(ValidationError::LastIterationTooHighDegree), verify_i128(proof, field_q));

    // Change about 10 % of the values, s.t. the Hamming distance of
    // the codeword is far from a low-degree polynomial.
    output = vec![];
    for j in 450..500 {
        y_values[j] ^= 1;
    }
    proof = prover_i128(
        &y_values,
        field_q,
        max_degree as u32,
        s,
        &mut output,
        primitive_root_of_unity,
    )
    .unwrap();
    assert_eq!(proof, LowDegreeProof::from_serialization(output.clone(), 0).unwrap().0);
    assert_eq!(
        Err(ValidationError::LastIterationTooHighDegree),
        verify_i128(proof.clone(), field_q)
    );
}

#[test]
fn wide_query_budget_catches_scattered_errors() {
    // A large instance with a query budget of 20.
    let size: usize = 1 << 14;
    let max_degree: usize = 1023;
    let field_q: i128 = 65537;
    let primitive_root_of_unity: i128 = 81;
    let coefficients = lcg_numbers(max_degree + 1, field_q);
    let mut y_values = evaluate_on_domain(&coefficients, field_q, primitive_root_of_unity, size);
    let s = 20;
    let mut output: Vec<u8> = vec![];
    let proof = prover_i128(
        &y_values,
        field_q,
        max_degree as u32,
        s,
        &mut output,
        primitive_root_of_unity,
    )
    .unwrap();
    assert_eq!(Ok(()), verify_i128(proof, field_q));

    // Flipping 50 consecutive entries moves the codeword far from
    // every low-degree polynomial.
    for j in 400..450 {
        y_values[j] = (y_values[j] + 1) % field_q;
    }
    output = vec![];
    let bad = prover_i128(
        &y_values,
        field_q,
        max_degree as u32,
        s,
        &mut output,
        primitive_root_of_unity,
    )
    .unwrap();
    assert_eq!(Err(ValidationError::LastIterationTooHighDegree), verify_i128(bad, field_q));
}

#[test]
fn prover_is_deterministic() {
    let y_values: Vec<i128> = vec![1, 10, 100, 91];
    let mut out1: Vec<u8> = vec![7, 7];
    let mut out2: Vec<u8> = vec![7, 7];
    let p1 = prover_i128(&y_values, 101, 1, 2, &mut out1, 10).unwrap();
    let p2 = prover_i128(&y_values, 101, 1, 2, &mut out2, 10).unwrap();
    assert_eq!(out1, out2);
    assert_eq!(p1, p2);
}

#[test]
fn transcript_prefix_changes_proof_bytes() {
    // The challenges hash the whole transcript, so a different prefix
    // yields different appended bytes; the proof still verifies when
    // decoded at its own offset.
    let y_values: Vec<i128> = vec![1, 10, 100, 91];
    let mut plain: Vec<u8> = vec![];
    let mut prefixed: Vec<u8> = vec![145, 96];
    let p_plain = prover_i128(&y_values, 101, 1, 2, &mut plain, 10).unwrap();
    let p_prefixed = prover_i128(&y_values, 101, 1, 2, &mut prefixed, 10).unwrap();
    assert_ne!(plain, prefixed[2..].to_vec());
    assert_ne!(p_plain.merkle_roots[1], p_prefixed.merkle_roots[1]);
    let decoded = LowDegreeProof::from_serialization(prefixed.clone(), 2).unwrap().0;
    assert_eq!(decoded, p_prefixed);
    assert_eq!(Ok(()), verify_i128(decoded, 101));
}

#[test]
fn prover_rejects_bad_max_degree() {
    let y_values: Vec<i128> = vec![1, 10, 100, 91];
    let mut output: Vec<u8> = vec![];
    let r = prover_i128(&y_values, 101, 2, 1, &mut output, 10);
    assert_eq!(Err(ProveError::BadMaxDegreeValue), r);
    assert!(output.is_empty());
}

#[test]
fn prover_rejects_exhausted_codeword() {
    let y_values: Vec<i128> = vec![1, 10, 100, 91];
    let mut output: Vec<u8> = vec![];
    let r = prover_i128(&y_values, 101, 1, 64, &mut output, 10);
    assert_eq!(Err(ProveError::NonPostiveRoundCount), r);
}

#[test]
fn parser_rejects_truncation_and_bad_parameters() {
    let y_values: Vec<i128> = vec![1, 10, 100, 91];
    let mut output: Vec<u8> = vec![];
    let _ = prover_i128(&y_values, 101, 1, 2, &mut output, 10).unwrap();

    // Truncations anywhere in the byte stream are caught.
    let truncated = output[0..output.len() - 3].to_vec();
    assert_eq!(
        Err(ValidationError::BadSizedProof),
        LowDegreeProof::from_serialization(truncated, 0).map(|p| p.1)
    );
    let short = output[0..10].to_vec();
    assert_eq!(
        Err(ValidationError::BadSizedProof),
        LowDegreeProof::from_serialization(short, 0).map(|p| p.1)
    );

    // Overwriting the query budget with a value the codeword cannot
    // support makes the parameters derive no rounds.
    let mut bad_s = output.clone();
    bad_s[8] = 64;
    bad_s[9] = 0;
    bad_s[10] = 0;
    bad_s[11] = 0;
    assert_eq!(
        Err(ValidationError::NonPostiveRoundCount),
        LowDegreeProof::from_serialization(bad_s, 0).map(|p| p.1)
    );
}

#[test]
fn verifier_rejects_forged_layer_values() {
    // Hand-build a proof whose Merkle openings are consistent but
    // whose folded layer cannot lie on the right lines.
    let field_q: i128 = 101;
    let omega: i128 = 10;
    let c0: Vec<i128> = vec![1, 10, 100, 91];
    let t0 = MerkleTree::from_vec(&c0);

    let template = |c1: Vec<i128>, preimage: Vec<u8>, ipp: Vec<u8>| -> LowDegreeProof {
        let t1 = MerkleTree::from_vec(&c1);
        let mut p = LowDegreeProof {
            ab_proofs: vec![],
            challenge_hash_preimages: vec![preimage],
            codeword_size: 4,
            c_proofs: vec![],
            index_picker_preimage: ipp,
            max_degree: 1,
            max_degree_of_last_round: 0,
            merkle_roots: vec![t0.get_root(), t1.get_root()],
            primitive_root_of_unity: omega,
            rounds_count: 1,
            s: 1,
        };
        let indices = p.get_abc_indices(0).unwrap();
        let (a, b, c) = indices[0];
        p.c_proofs = vec![t1.get_multi_proof(&vec![c])];
        p.ab_proofs = vec![t0.get_multi_proof(&vec![a, b])];
        p
    };

    let preimage: Vec<u8> = vec![9, 9, 9];
    let ipp: Vec<u8> = vec![3, 1, 4, 1, 5];
    let p0 = template(vec![0, 0], preimage.clone(), ipp.clone());
    let v0 = verify_i128(p0, field_q);
    if v0 != Err(ValidationError::NotColinear) {
        let p1 = template(vec![1, 1], preimage, ipp);
        assert_eq!(Err(ValidationError::NotColinear), verify_i128(p1, field_q));
    }
}

#[test]
fn merkle_commitment_matches_reference_hash() {
    // The committed root is the hash tree over the 16-byte
    // little-endian leaf encodings.
    let t = MerkleTree::from_vec(&[3, 4]);
    let root = t.get_root();
    let mut leaf0: Vec<u8> = vec![0u8; 16];
    leaf0[0] = 3;
    let mut leaf1: Vec<u8> = vec![0u8; 16];
    leaf1[0] = 4;
    let h0 = blake3::hash(&leaf0);
    let h1 = blake3::hash(&leaf1);
    let mut cat: Vec<u8> = Vec::new();
    cat.extend_from_slice(h0.as_bytes());
    cat.extend_from_slice(h1.as_bytes());
    let expected = blake3::hash(&cat);
    assert_eq!(expected.as_bytes(), &root);
}

#[test]
fn challenge_derivation_matches_reference_hash() {
    // A round challenge is the first 16 digest bytes read big-endian,
    // reduced by the modulus.
    let preimage: Vec<u8> = vec![1, 2, 3];
    let digest = blake3::hash(&preimage);
    let expected = from_bytes_raw(&101, &digest.as_bytes()[0..16]);
    assert!(expected >= 0 && expected < 101);
    let mut manual: i128 = 0;
    for &b in &digest.as_bytes()[0..16] {
        manual = (manual * 256 + b as i128) % 101;
    }
    assert_eq!(manual, expected);
}

#[test]
fn verifier_rejects_mismatched_cardinalities() {
    let y_values: Vec<i128> = vec![1, 10, 100, 91];
    let mut output: Vec<u8> = vec![];
    let mut proof = prover_i128(&y_values, 101, 1, 2, &mut output, 10).unwrap();
    proof.merkle_roots.pop();
    assert_eq!(Err(ValidationError::BadSizedProof), verify_i128(proof, 101));
}
