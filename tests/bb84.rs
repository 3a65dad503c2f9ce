use bb84::{
    basis_to_string, bits_to_hex, estimate_errors, intercept_qubit, sample_indices, BB84Protocol, Basis,
    InterceptRate, KeyGenerationResult, Qubit, RATE_SCALE,
};

fn error_rate(result: &KeyGenerationResult) -> f64 {
    if result.sampled == 0 {
        0.0
    } else {
        result.errors as f64 / result.sampled as f64
    }
}

#[test]
fn test_bb84_basic() {
    let protocol = BB84Protocol::new(128);
    let result = protocol.generate_key();

    assert!(result.final_key.len() <= 128);
    assert!(error_rate(&result) < 0.5);
    assert!(!result.key_hex.is_empty());
}

#[test]
fn test_bb84_with_eavesdropper() {
    // Half of the qubits intercepted: one sifted bit in eight is wrong on
    // average, but a single run samples only about 32 positions, so the
    // check is made on the average over many runs.
    let protocol = BB84Protocol::new(128);
    let trials = 1000;
    let mut total = 0.0;
    let mut detected = 0;
    for _ in 0..trials {
        let result = protocol.generate_key_with_eve(InterceptRate::from_scaled(RATE_SCALE / 2).unwrap());
        total += error_rate(&result);
        if result.eavesdropping_detected {
            detected += 1;
        }
    }
    let mean = total / trials as f64;
    assert!(mean > 0.11 || detected * 2 > trials);
}

#[test]
fn interception_replaces_the_bit_only_on_a_wrong_guess() {
    let full = InterceptRate::from_scaled(RATE_SCALE).unwrap();
    let none = InterceptRate::from_scaled(0).unwrap();
    let q = Qubit { bit: true, basis: Basis::Rectilinear };
    // `true` selects the diagonal basis: a wrong guess.
    assert_eq!(intercept_qubit(q, 0, true, false, &full), Qubit { bit: false, basis: Basis::Rectilinear });
    // `false` selects the rectilinear basis: a right guess leaves the bit.
    assert_eq!(intercept_qubit(q, 0, false, false, &full), q);
    // A draw at or above the threshold means no interception.
    assert_eq!(intercept_qubit(q, 0, true, false, &none), q);
    let half = InterceptRate::from_scaled(RATE_SCALE / 2).unwrap();
    assert_eq!(intercept_qubit(q, RATE_SCALE / 2, true, false, &half), q);
    assert_eq!(intercept_qubit(q, RATE_SCALE / 2 - 1, true, false, &half).bit, false);
}

#[test]
fn intercept_keeps_bases_and_does_nothing_at_rate_zero() {
    let protocol = BB84Protocol::new(8);
    let (bits, bases) = protocol.alice_generate();
    let sent = protocol.alice_prepare(&bits, &bases);
    let mut qubits = sent.clone();
    protocol.intercept(&mut qubits, &InterceptRate::from_scaled(0).unwrap());
    assert_eq!(qubits, sent);
    protocol.intercept(&mut qubits, &InterceptRate::from_scaled(RATE_SCALE).unwrap());
    assert_eq!(qubits.len(), sent.len());
    assert!(qubits.iter().zip(sent.iter()).all(|(a, b)| a.basis == b.basis));
}

#[test]
fn test_bits_to_hex() {
    let bits = vec![true, false, true, false, true, true, false, false];
    let hex = bits_to_hex(&bits);
    assert_eq!(hex, "AC");
}

#[test]
fn hex_pads_the_last_group_with_zeros() {
    assert_eq!(bits_to_hex(&[]), "");
    assert_eq!(bits_to_hex(&[true]), "8");
    assert_eq!(bits_to_hex(&[true, true, true, true, false, true]), "F4");
    assert_eq!(bits_to_hex(&[false, false, false, true, true, false, false, true, false]), "190");
}

#[test]
fn basis_labels_are_single_letters() {
    assert_eq!(basis_to_string(&Basis::Rectilinear), "R");
    assert_eq!(basis_to_string(&Basis::Diagonal), "D");
}

#[test]
fn generated_material_is_twice_the_key_length() {
    for key_length in [1usize, 7, 64] {
        let protocol = BB84Protocol::new(key_length);
        let (bits, bases) = protocol.alice_generate();
        assert_eq!(bits.len(), 2 * key_length);
        assert_eq!(bases.len(), 2 * key_length);
        assert_eq!(protocol.bob_choose_bases().len(), 2 * key_length);
    }
}

#[test]
fn prepare_pairs_bits_with_bases() {
    let protocol = BB84Protocol::new(2);
    let qubits = protocol.alice_prepare(&[true, false], &[Basis::Diagonal, Basis::Rectilinear]);
    assert_eq!(
        qubits,
        vec![
            Qubit { bit: true, basis: Basis::Diagonal },
            Qubit { bit: false, basis: Basis::Rectilinear }
        ]
    );
}

#[test]
fn measurement_is_exact_on_matching_bases() {
    let protocol = BB84Protocol::new(4);
    let bits = [true, false, true, true, false, false, true, false];
    let bases = [Basis::Rectilinear, Basis::Diagonal, Basis::Diagonal, Basis::Rectilinear,
        Basis::Rectilinear, Basis::Diagonal, Basis::Rectilinear, Basis::Diagonal];
    let qubits = protocol.alice_prepare(&bits, &bases);
    for _ in 0..50 {
        assert_eq!(protocol.bob_measure(&qubits, &bases), bits.to_vec());
    }
}

#[test]
fn reconciliation_keeps_matching_positions() {
    let protocol = BB84Protocol::new(3);
    let alice_bits = [true, false, true, true, false, true];
    let alice_bases = [Basis::Rectilinear, Basis::Diagonal, Basis::Diagonal,
        Basis::Rectilinear, Basis::Rectilinear, Basis::Diagonal];
    let bob_bases = [Basis::Rectilinear, Basis::Rectilinear, Basis::Diagonal,
        Basis::Diagonal, Basis::Rectilinear, Basis::Rectilinear];
    let bob_bits = [true, true, true, false, false, false];
    let (sifted, indices) = protocol.reconcile_bases(&alice_bits, &alice_bases, &bob_bits, &bob_bases);
    assert_eq!(indices, vec![0, 2, 4]);
    assert_eq!(sifted, vec![true, true, false]);
}

#[test]
fn extraction_truncates_to_the_target() {
    let protocol = BB84Protocol::new(3);
    let sifted = [true, false, true, true, false];
    assert_eq!(protocol.extract_final_key(&sifted, 3), vec![true, false, true]);
    assert_eq!(protocol.extract_final_key(&sifted, 9), sifted.to_vec());
    assert_eq!(protocol.extract_final_key(&[], 4), Vec::<bool>::new());
}

#[test]
fn sampling_never_repeats_an_index() {
    for _ in 0..100 {
        let picked = sample_indices(40, 20);
        assert_eq!(picked.len(), 20);
        let mut sorted = picked.clone();
        sorted.sort();
        sorted.dedup();
        assert_eq!(sorted.len(), 20);
        assert!(picked.iter().all(|&i| i < 40));
    }
    let mut all = sample_indices(12, 12);
    all.sort();
    assert_eq!(all, (0..12).collect::<Vec<usize>>());
}

#[test]
fn error_estimate_applies_the_eleven_percent_threshold() {
    let alice = vec![false; 100];
    let mut bob = vec![false; 100];
    for i in 0..11 {
        bob[i] = true;
    }
    let all: Vec<usize> = (0..100).collect();
    let at_threshold = estimate_errors(&alice, &bob, &all);
    assert_eq!((at_threshold.errors, at_threshold.sampled), (11, 100));
    assert!(!at_threshold.eavesdropping_detected);
    bob[11] = true;
    let above = estimate_errors(&alice, &bob, &all);
    assert_eq!(above.errors, 12);
    assert!(above.eavesdropping_detected);
    let some = estimate_errors(&alice, &bob, &[0, 50, 3]);
    assert_eq!((some.errors, some.sampled), (2, 3));
}

#[test]
fn detector_on_empty_or_tiny_keys_samples_nothing() {
    let protocol = BB84Protocol::new(1);
    let empty = protocol.detect_eavesdropping(&[], &[true], 10);
    assert_eq!((empty.errors, empty.sampled, empty.eavesdropping_detected), (0, 0, false));
    let tiny = protocol.detect_eavesdropping(&[true], &[false], 10);
    assert_eq!((tiny.errors, tiny.sampled, tiny.eavesdropping_detected), (0, 0, false));
}

#[test]
fn detector_caps_the_sample_at_half_the_common_key() {
    let protocol = BB84Protocol::new(8);
    let alice = vec![true; 16];
    let bob = vec![false; 20];
    let r = protocol.detect_eavesdropping(&alice, &bob, 10);
    assert_eq!((r.errors, r.sampled), (8, 8));
    assert!(r.eavesdropping_detected);
    let r = protocol.detect_eavesdropping(&alice, &bob, 3);
    assert_eq!((r.errors, r.sampled), (3, 3));
}

#[test]
fn intercept_rate_above_one_is_refused() {
    assert!(InterceptRate::from_scaled(RATE_SCALE + 1).is_none());
    assert_eq!(InterceptRate::from_scaled(RATE_SCALE).map(|r| r.scaled()), Some(RATE_SCALE));
}

#[test]
fn clean_run_shape() {
    let protocol = BB84Protocol::new(16);
    let r = protocol.generate_key();
    assert_eq!(r.alice_bits.len(), 32);
    assert_eq!(r.alice_bases.len(), 32);
    assert_eq!(r.bob_bases.len(), 32);
    assert!(r.alice_bases.iter().chain(r.bob_bases.iter()).all(|s| s == "R" || s == "D"));
    let matching = r.alice_bases.iter().zip(r.bob_bases.iter()).filter(|(a, b)| a == b).count();
    assert_eq!(r.raw_key.len(), matching);
    assert_eq!(r.final_key.len(), matching.min(16));
    assert_eq!(r.final_key[..], r.raw_key[..r.final_key.len()]);
    assert_eq!(r.key_hex, bits_to_hex(&r.final_key));
    assert_eq!(r.errors, 0);
}

#[test]
fn no_interception_gives_no_errors() {
    let protocol = BB84Protocol::new(64);
    for _ in 0..20 {
        let r = protocol.generate_key_with_eve(InterceptRate::from_scaled(0).unwrap());
        assert_eq!(r.errors, 0);
        assert!(!r.eavesdropping_detected);
    }
}

#[test]
fn full_interception_averages_a_quarter() {
    let protocol = BB84Protocol::new(128);
    let trials = 1000;
    let mut total = 0.0;
    for _ in 0..trials {
        let r = protocol.generate_key_with_eve(InterceptRate::from_scaled(RATE_SCALE).unwrap());
        assert!(r.errors <= r.sampled);
        assert_eq!(r.eavesdropping_detected, r.errors * 100 > r.sampled * 11);
        total += error_rate(&r);
    }
    let mean = total / trials as f64;
    assert!((0.15..=0.35).contains(&mean));
}
