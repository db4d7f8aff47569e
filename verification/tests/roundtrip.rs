use fv_wire::{DecodeError, FVCiphertext, RqPoly, Scalar, SecretKey, Serializable};

fn scalars(values: &[u64]) -> Vec<Scalar> {
    let mut out = Vec::new();
    for v in values {
        out.push(Scalar::from_u64_raw(*v));
    }
    out
}

/// A polynomial of `n` coefficients that differ from index to index and use
/// all eight bytes.
fn sample_poly(n: usize, seed: u64, is_ntt_form: bool) -> RqPoly<Scalar> {
    let mut coeffs = Vec::new();
    let mut state = seed;
    for i in 0..n {
        state = state
            .wrapping_mul(6364136223846793005)
            .wrapping_add(1442695040888963407)
            .wrapping_add(i as u8 as u64);
        coeffs.push(Scalar::new(state));
    }
    RqPoly::new_without_context(coeffs, is_ntt_form)
}

#[test]
fn test_scalar_serialization() {
    let c = Scalar::new(2);
    let bytes = c.to_bytes();
    let deserialized_c = Scalar::from_bytes(&bytes).unwrap();
    assert_eq!(c, deserialized_c);
}

#[test]
fn test_rqpoly_serialization() {
    let mut coeffs = Vec::<Scalar>::new();
    for i in 0..4 {
        coeffs.push(Scalar::from_u64_raw(i));
    }
    let testpoly = RqPoly::<Scalar>::new_without_context(coeffs, false);
    let bytes = testpoly.to_bytes();
    let deserialized = RqPoly::<Scalar>::from_bytes(&bytes).unwrap();
    assert_eq!(testpoly, deserialized);
}

#[test]
fn test_fvciphertext_serialization() {
    // two halves of 2048 coefficients each, as an encryption at that degree gives
    let n = 2048;
    let mut v = vec![0u8; n];
    for i in 0..n {
        v[i] = i as u8;
    }
    let mut c0 = sample_poly(n, 0x9e3779b97f4a7c15, true);
    let c1 = sample_poly(n, 0xc2b2ae3d27d4eb4f, true);
    for i in 0..n {
        c0.coeffs[i] = Scalar::new(c0.coeffs[i].rep() ^ (v[i] as u64));
    }
    let ct = FVCiphertext(c0, c1);
    let bytes = ct.to_bytes();
    let ct_deserialized = FVCiphertext::from_bytes(&bytes).unwrap();
    assert_eq!(ct_deserialized, ct);
}

#[test]
fn scalar_two_is_seven_zero_bytes_and_a_two() {
    let bytes = Scalar::new(2).to_bytes();
    assert_eq!(bytes, vec![0, 0, 0, 0, 0, 0, 0, 2]);
    assert_eq!(Scalar::from_bytes(&bytes), Ok(Scalar::new(2)));
    assert_eq!(Scalar::from_bytes(&vec![0, 0, 0, 0, 0, 0, 0, 2]).unwrap().rep(), 2);
}

#[test]
fn scalar_bytes_are_big_endian() {
    let s = Scalar::new(0x0102030405060708);
    assert_eq!(s.to_bytes(), vec![1, 2, 3, 4, 5, 6, 7, 8]);
    assert_eq!(s.to_bytes(), 0x0102030405060708u64.to_be_bytes().to_vec());
    assert_eq!(
        Scalar::from_bytes(&vec![0x80, 0, 0, 0, 0, 0, 0, 1]).unwrap().rep(),
        0x8000000000000001
    );
}

#[test]
fn scalar_round_trip_on_edge_values() {
    for v in [0u64, 1, 2, 255, 256, 0xffff_ffff, 0x1_0000_0000, u64::MAX - 1, u64::MAX] {
        let s = Scalar::new(v);
        let bytes = s.to_bytes();
        assert_eq!(bytes.len(), 8);
        assert_eq!(bytes, v.to_be_bytes().to_vec());
        assert_eq!(Scalar::from_bytes(&bytes), Ok(s));
        let words = s.to_bytes_u16();
        assert_eq!(words.len(), 4);
        assert_eq!(Scalar::from_bytes_u16(&words), Ok(s));
    }
}

#[test]
fn scalar_constructors_keep_the_representative() {
    assert_eq!(Scalar::new(77).rep(), 77);
    assert_eq!(Scalar::from_u64_raw(u64::MAX).rep(), u64::MAX);
    assert_eq!(Scalar::new(5), Scalar::from_u64_raw(5));
    assert_ne!(Scalar::new(5), Scalar::new(6));
}

#[test]
fn scalar_of_five_bytes_is_truncated() {
    assert_eq!(Scalar::from_bytes(&vec![1, 2, 3, 4, 5]), Err(DecodeError::TruncatedInput));
    assert_eq!(Scalar::from_bytes(&vec![]), Err(DecodeError::TruncatedInput));
    assert_eq!(Scalar::from_bytes(&vec![0; 7]), Err(DecodeError::TruncatedInput));
}

#[test]
fn scalar_of_nine_bytes_does_not_match() {
    assert_eq!(Scalar::from_bytes(&vec![0; 9]), Err(DecodeError::LengthMismatch));
    assert_eq!(Scalar::from_bytes(&vec![0; 16]), Err(DecodeError::LengthMismatch));
}

#[test]
fn scalar_words_are_byte_pairs() {
    let s = Scalar::new(0x0102030405060708);
    assert_eq!(s.to_bytes_u16(), vec![0x0102, 0x0304, 0x0506, 0x0708]);
    assert_eq!(Scalar::new(2).to_bytes_u16(), vec![0, 0, 0, 2]);
    assert_eq!(Scalar::new(u64::MAX).to_bytes_u16(), vec![0xffff, 0xffff, 0xffff, 0xffff]);
    assert_eq!(
        Scalar::from_bytes_u16(&vec![0x0102, 0x0304, 0x0506, 0x0708]),
        Ok(Scalar::new(0x0102030405060708))
    );
}

#[test]
fn scalar_words_after_the_fourth_are_not_read() {
    assert_eq!(
        Scalar::from_bytes_u16(&vec![0, 0, 0, 9, 0xdead, 0xbeef]),
        Ok(Scalar::new(9))
    );
}

#[test]
fn scalar_of_three_words_is_truncated() {
    assert_eq!(Scalar::from_bytes_u16(&vec![1, 2, 3]), Err(DecodeError::TruncatedInput));
    assert_eq!(Scalar::from_bytes_u16(&vec![]), Err(DecodeError::TruncatedInput));
}

#[test]
fn scalar_both_paths_give_one_value() {
    for v in [0u64, 2, 0x00ff_00ff_00ff_00ff, 0xfedc_ba98_7654_3210, u64::MAX] {
        let s = Scalar::new(v);
        let from_bytes = Scalar::from_bytes(&s.to_bytes()).unwrap();
        let from_words = Scalar::from_bytes_u16(&s.to_bytes_u16()).unwrap();
        assert_eq!(from_bytes, from_words);
        assert_eq!(from_words.rep(), v);
    }
}

#[test]
fn poly_of_four_coefficients_is_thirty_three_bytes() {
    let p = RqPoly::new_without_context(scalars(&[0, 1, 2, 3]), false);
    let bytes = p.to_bytes();
    let expected: Vec<u8> = vec![
        0, //
        0, 0, 0, 0, 0, 0, 0, 0, //
        0, 0, 0, 0, 0, 0, 0, 1, //
        0, 0, 0, 0, 0, 0, 0, 2, //
        0, 0, 0, 0, 0, 0, 0, 3,
    ];
    assert_eq!(bytes.len(), 33);
    assert_eq!(bytes, expected);
    let back = RqPoly::<Scalar>::from_bytes(&bytes).unwrap();
    assert_eq!(back.coeffs, scalars(&[0, 1, 2, 3]));
    assert_eq!(back.is_ntt_form, false);
    assert_eq!(back, p);
}

#[test]
fn poly_flag_is_the_first_unit() {
    let p = RqPoly::new_without_context(scalars(&[0x0a0b]), true);
    assert_eq!(p.to_bytes(), vec![1, 0, 0, 0, 0, 0, 0, 0x0a, 0x0b]);
    assert_eq!(p.to_bytes_u16(), vec![1, 0, 0, 0, 0x0a0b]);
    let q = RqPoly::new_without_context(scalars(&[0x0a0b]), false);
    assert_eq!(q.to_bytes()[0], 0);
    assert_eq!(q.to_bytes_u16()[0], 0);
    assert_eq!(RqPoly::<Scalar>::from_bytes(&p.to_bytes()), Ok(p));
    assert_eq!(RqPoly::<Scalar>::from_bytes(&q.to_bytes()), Ok(q));
}

#[test]
fn poly_any_nonzero_flag_means_transform_domain() {
    let back = RqPoly::<Scalar>::from_bytes(&vec![7, 0, 0, 0, 0, 0, 0, 0, 5]).unwrap();
    assert_eq!(back.is_ntt_form, true);
    assert_eq!(back.coeffs, scalars(&[5]));
    let back = RqPoly::<Scalar>::from_bytes_u16(&vec![0x0100, 0, 0, 0, 5]).unwrap();
    assert_eq!(back.is_ntt_form, true);
    assert_eq!(back.coeffs, scalars(&[5]));
}

#[test]
fn poly_without_coefficients_is_the_flag_alone() {
    for flag in [false, true] {
        let p = RqPoly::<Scalar>::new_without_context(Vec::new(), flag);
        let bytes = p.to_bytes();
        assert_eq!(bytes, vec![flag as u8]);
        let back = RqPoly::<Scalar>::from_bytes(&bytes).unwrap();
        assert!(back.coeffs.is_empty());
        assert_eq!(back.is_ntt_form, flag);
        let words = p.to_bytes_u16();
        assert_eq!(words, vec![flag as u16]);
        let back = RqPoly::<Scalar>::from_bytes_u16(&words).unwrap();
        assert!(back.coeffs.is_empty());
        assert_eq!(back.is_ntt_form, flag);
    }
}

#[test]
fn poly_length_is_one_plus_eight_per_coefficient() {
    for n in [0usize, 1, 2, 5, 64, 1000] {
        let p = sample_poly(n, 11, n % 2 == 0);
        assert_eq!(p.to_bytes().len(), 1 + 8 * n);
        assert_eq!(p.to_bytes_u16().len(), 1 + 4 * n);
    }
}

#[test]
fn poly_round_trip_keeps_order_and_flag() {
    for n in [0usize, 1, 3, 17, 256] {
        for flag in [false, true] {
            let p = sample_poly(n, 0x1234_5678_9abc_def0, flag);
            assert_eq!(RqPoly::<Scalar>::from_bytes(&p.to_bytes()), Ok(p.clone()));
            assert_eq!(RqPoly::<Scalar>::from_bytes_u16(&p.to_bytes_u16()), Ok(p));
        }
    }
}

#[test]
fn poly_words_are_the_bytes_in_pairs() {
    let coeffs = scalars(&[0x0102030405060708, 0xfffe_fdfc_fbfa_f9f8]);
    let p = RqPoly::new_without_context(coeffs, true);
    assert_eq!(
        p.to_bytes_u16(),
        vec![1, 0x0102, 0x0304, 0x0506, 0x0708, 0xfffe, 0xfdfc, 0xfbfa, 0xf9f8]
    );
    let back = RqPoly::<Scalar>::from_bytes_u16(&p.to_bytes_u16()).unwrap();
    assert_eq!(back, RqPoly::<Scalar>::from_bytes(&p.to_bytes()).unwrap());
}

#[test]
fn poly_of_no_units_is_truncated() {
    assert_eq!(RqPoly::<Scalar>::from_bytes(&vec![]), Err(DecodeError::TruncatedInput));
    assert_eq!(RqPoly::<Scalar>::from_bytes_u16(&vec![]), Err(DecodeError::TruncatedInput));
}

#[test]
fn poly_with_units_left_over_does_not_match() {
    assert_eq!(RqPoly::<Scalar>::from_bytes(&vec![0; 8]), Err(DecodeError::LengthMismatch));
    assert_eq!(RqPoly::<Scalar>::from_bytes(&vec![0; 2]), Err(DecodeError::LengthMismatch));
    assert_eq!(RqPoly::<Scalar>::from_bytes(&vec![0; 10]), Err(DecodeError::LengthMismatch));
    assert_eq!(RqPoly::<Scalar>::from_bytes(&vec![0; 16]), Err(DecodeError::LengthMismatch));
    assert!(RqPoly::<Scalar>::from_bytes(&vec![0; 9]).is_ok());
    assert!(RqPoly::<Scalar>::from_bytes(&vec![0; 17]).is_ok());
    assert_eq!(RqPoly::<Scalar>::from_bytes_u16(&vec![0; 4]), Err(DecodeError::LengthMismatch));
    assert_eq!(RqPoly::<Scalar>::from_bytes_u16(&vec![0; 6]), Err(DecodeError::LengthMismatch));
    assert!(RqPoly::<Scalar>::from_bytes_u16(&vec![0; 5]).is_ok());
    assert!(RqPoly::<Scalar>::from_bytes_u16(&vec![0; 9]).is_ok());
}

#[test]
fn ciphertext_of_two_thirty_three_byte_halves() {
    let c0 = RqPoly::new_without_context(scalars(&[0, 1, 2, 3]), false);
    let c1 = RqPoly::new_without_context(scalars(&[u64::MAX, 7, 0x0100, 9]), true);
    assert_eq!(c0.to_bytes().len(), 33);
    assert_eq!(c1.to_bytes().len(), 33);
    let ct = FVCiphertext(c0.clone(), c1.clone());
    let bytes = ct.to_bytes();
    assert_eq!(bytes.len(), 66);
    assert_eq!(bytes[..33].to_vec(), c0.to_bytes());
    assert_eq!(bytes[33..].to_vec(), c1.to_bytes());
    let back = FVCiphertext::<Scalar>::from_bytes(&bytes).unwrap();
    assert_eq!(back.0, c0);
    assert_eq!(back.1, c1);
}

#[test]
fn ciphertext_length_is_the_sum_of_its_halves() {
    for (n0, n1) in [(0usize, 0usize), (1, 1), (4, 4), (2, 5), (0, 3)] {
        let c0 = sample_poly(n0, 1, true);
        let c1 = sample_poly(n1, 2, false);
        let ct = FVCiphertext(c0.clone(), c1.clone());
        assert_eq!(ct.to_bytes().len(), c0.to_bytes().len() + c1.to_bytes().len());
        assert_eq!(ct.to_bytes().len(), 2 + 8 * (n0 + n1));
        assert_eq!(ct.to_bytes_u16().len(), c0.to_bytes_u16().len() + c1.to_bytes_u16().len());
        assert_eq!(ct.to_bytes_u16().len(), 2 + 4 * (n0 + n1));
    }
}

#[test]
fn ciphertext_round_trip_with_equal_halves() {
    for n in [0usize, 1, 8, 100] {
        let ct = FVCiphertext(sample_poly(n, 3, true), sample_poly(n, 4, false));
        assert_eq!(FVCiphertext::<Scalar>::from_bytes(&ct.to_bytes()), Ok(ct.clone()));
        assert_eq!(FVCiphertext::<Scalar>::from_bytes_u16(&ct.to_bytes_u16()), Ok(ct));
    }
}

#[test]
fn ciphertext_with_unequal_halves_does_not_come_back() {
    // 9 + 25 bytes: cut at 17, both parts are read, as two coefficients each
    let ct = FVCiphertext(sample_poly(1, 5, true), sample_poly(3, 6, true));
    let back = FVCiphertext::<Scalar>::from_bytes(&ct.to_bytes());
    assert!(back.is_ok());
    assert_ne!(back, Ok(ct.clone()));
    assert_eq!(back.unwrap().0.coeffs.len(), 2);
    assert_ne!(FVCiphertext::<Scalar>::from_bytes_u16(&ct.to_bytes_u16()), Ok(ct));
    // 9 + 17 bytes: cut at 13, which is no polynomial
    let ct = FVCiphertext(sample_poly(1, 5, true), sample_poly(2, 6, true));
    assert_eq!(
        FVCiphertext::<Scalar>::from_bytes(&ct.to_bytes()),
        Err(DecodeError::LengthMismatch)
    );
    assert_eq!(
        FVCiphertext::<Scalar>::from_bytes_u16(&ct.to_bytes_u16()),
        Err(DecodeError::LengthMismatch)
    );
}

#[test]
fn ciphertext_shorter_than_two_units_is_truncated() {
    assert_eq!(FVCiphertext::<Scalar>::from_bytes(&vec![]), Err(DecodeError::TruncatedInput));
    assert_eq!(FVCiphertext::<Scalar>::from_bytes(&vec![1]), Err(DecodeError::TruncatedInput));
    assert_eq!(FVCiphertext::<Scalar>::from_bytes_u16(&vec![]), Err(DecodeError::TruncatedInput));
    assert_eq!(FVCiphertext::<Scalar>::from_bytes_u16(&vec![1]), Err(DecodeError::TruncatedInput));
}

#[test]
fn ciphertext_of_odd_length_does_not_match() {
    assert_eq!(FVCiphertext::<Scalar>::from_bytes(&vec![0; 3]), Err(DecodeError::LengthMismatch));
    assert_eq!(FVCiphertext::<Scalar>::from_bytes(&vec![0; 19]), Err(DecodeError::LengthMismatch));
    assert_eq!(FVCiphertext::<Scalar>::from_bytes(&vec![0; 4]), Err(DecodeError::LengthMismatch));
    assert!(FVCiphertext::<Scalar>::from_bytes(&vec![0; 2]).is_ok());
    assert!(FVCiphertext::<Scalar>::from_bytes(&vec![0; 18]).is_ok());
    assert_eq!(
        FVCiphertext::<Scalar>::from_bytes_u16(&vec![0; 11]),
        Err(DecodeError::LengthMismatch)
    );
    assert_eq!(
        FVCiphertext::<Scalar>::from_bytes_u16(&vec![0; 12]),
        Err(DecodeError::LengthMismatch)
    );
    assert!(FVCiphertext::<Scalar>::from_bytes_u16(&vec![0; 10]).is_ok());
}

#[test]
fn secret_key_is_written_as_its_polynomial() {
    let p = sample_poly(6, 99, true);
    let k = SecretKey(p.clone());
    assert_eq!(k.to_bytes(), p.to_bytes());
    assert_eq!(k.to_bytes_u16(), p.to_bytes_u16());
    assert_eq!(k.to_bytes().len(), 49);
}

#[test]
fn secret_key_round_trip() {
    for n in [0usize, 1, 4, 33] {
        for flag in [false, true] {
            let k = SecretKey(sample_poly(n, 0xabcdef, flag));
            assert_eq!(SecretKey::<Scalar>::from_bytes(&k.to_bytes()), Ok(k.clone()));
            assert_eq!(SecretKey::<Scalar>::from_bytes_u16(&k.to_bytes_u16()), Ok(k));
        }
    }
}

#[test]
fn secret_key_rejects_what_a_polynomial_rejects() {
    assert_eq!(SecretKey::<Scalar>::from_bytes(&vec![]), Err(DecodeError::TruncatedInput));
    assert_eq!(SecretKey::<Scalar>::from_bytes(&vec![0; 5]), Err(DecodeError::LengthMismatch));
    assert_eq!(SecretKey::<Scalar>::from_bytes_u16(&vec![]), Err(DecodeError::TruncatedInput));
    assert_eq!(SecretKey::<Scalar>::from_bytes_u16(&vec![0; 3]), Err(DecodeError::LengthMismatch));
}
