use rscode::code::Code;
use rscode::code::CodeError;
use rscode::code::RATE;
use rscode::code::fold;
use rscode::field::F128;
use rscode::field::F64;
use rscode::ntt::Ntt;

fn rand_f128() -> F128 {
    F128::new(rand::random::<u128>())
}

/// Fold a buffer once at a challenge without any transform: the direct
/// multilinear combination of adjacent pairs.
fn fold_message(vals: &[F128], r: F128) -> Vec<F128> {
    let mut out = Vec::new();
    let mut i: usize = 0;
    while i < vals.len() / 2 {
        let a = vals[2 * i];
        let b = vals[2 * i + 1];
        out.push(a.add(r.mul(a.add(b))));
        i += 1;
    }
    out
}

#[test]
fn test_fold() {
    let l: usize = 11;
    let poly: Vec<F128> = (0..1usize << l).map(|_| rand_f128()).collect();

    let ntt = Ntt::new(l + 2).unwrap();

    let code = Code::new(&poly, &ntt).unwrap();

    let r: Vec<F128> = (0..l).map(|_| rand_f128()).collect();

    // The multilinear extension of the message at the challenge point,
    // computed directly over the message, with no transform involved.
    let mut vals = poly.clone();
    for round in 0..l {
        vals = fold_message(&vals, r[round]);
    }
    let poly_eval = vals[0];

    let mut folded_code = code.fold_code(r[0], 0, &ntt).unwrap();
    for round in 1..l {
        folded_code = folded_code.fold_code(r[round], round, &ntt).unwrap();
    }

    println!("{:?}", poly_eval);
    println!("{:?}", folded_code);

    // After l folds only the RATE coset remnants are left, and each equals
    // the message's multilinear extension at the challenge point.
    assert_eq!(folded_code.encoding.len(), RATE);
    for k in 0..RATE {
        assert_eq!(folded_code.idx(k), poly_eval);
    }
}

#[test]
fn test_ntt() {
    let l: usize = 11;
    let poly: Vec<F64> = (0..1usize << l).map(|_| F64::new(rand::random::<u64>())).collect();

    let ntt = Ntt::new(13).unwrap();

    let res = Code::new_ext(&poly, &ntt);
    match &res {
        Ok(_) => println!("ok"),
        Err(error) => println!("{:?}", error),
    }
    let code = res.unwrap();
    // 2^11 narrow elements repack to 2^10 wide ones, encoded on RATE cosets.
    assert_eq!(code.encoding.len(), RATE << (l - 1));
}

#[test]
fn encode_length_is_rate_times_message_length() {
    let ntt = Ntt::new(6).unwrap();
    let msg: Vec<F128> = (0..16).map(|i| F128::new(i as u128 + 1)).collect();
    let code = Code::new(&msg, &ntt).unwrap();
    assert_eq!(code.encoding.len(), RATE * msg.len());
}

#[test]
fn fold_halves_the_length() {
    let ntt = Ntt::new(6).unwrap();
    let msg: Vec<F128> = (0..16).map(|i| F128::new(i as u128 * 3 + 7)).collect();
    let code = Code::new(&msg, &ntt).unwrap();
    let folded = code.fold_code(F128::new(5), 0, &ntt).unwrap();
    assert_eq!(folded.encoding.len(), code.encoding.len() / 2);
}

#[test]
fn encode_is_deterministic() {
    let ntt = Ntt::new(7).unwrap();
    let msg: Vec<F128> = (0..32).map(|_| rand_f128()).collect();
    let c1 = Code::new(&msg, &ntt).unwrap();
    let c2 = Code::new(&msg, &ntt).unwrap();
    assert_eq!(c1.encoding, c2.encoding);
    let ntt2 = Ntt::new(7).unwrap();
    let c3 = Code::new(&msg, &ntt2).unwrap();
    assert_eq!(c1.encoding, c3.encoding);
}

#[test]
fn fold_is_affine_in_the_challenge() {
    let ntt = Ntt::new(8).unwrap();
    let v0 = rand_f128();
    let v1 = rand_f128();
    for round in 0..3usize {
        for idx in [0usize, 1, 5] {
            let p0 = fold(F128::zero(), round, idx, v0, v1, &ntt);
            let p1 = fold(F128::one(), round, idx, v0, v1, &ntt);
            for ch in [0u128, 1, 2, 77, u128::MAX] {
                let out = fold(F128::new(ch), round, idx, v0, v1, &ntt);
                // the line through (0, p0) and (1, p1), evaluated at ch
                let line = p0.add(F128::new(ch).mul(p0.add(p1)));
                assert_eq!(out, line);
            }
        }
    }
}

#[test]
fn coset_blocks_are_the_per_coset_transforms() {
    let ntt = Ntt::new(6).unwrap();
    let msg: Vec<F128> = (0..8).map(|_| rand_f128()).collect();
    let code = Code::new(&msg, &ntt).unwrap();
    for c in 0..RATE {
        let mut buf = msg.clone();
        ntt.forward_transform(&mut buf, c as u32).unwrap();
        assert_eq!(&code.encoding[c * msg.len()..(c + 1) * msg.len()], &buf[..]);
    }
}

#[test]
fn repacking_error_on_odd_message_length() {
    let ntt = Ntt::new(6).unwrap();
    let msg: Vec<F64> = (0..5).map(|i| F64::new(i as u64)).collect();
    assert_eq!(Code::new_ext(&msg, &ntt).unwrap_err(), CodeError::Repacking);
}

#[test]
fn power_of_two_error_on_bad_message_length() {
    let ntt = Ntt::new(6).unwrap();
    let msg: Vec<F128> = (0..6).map(|i| F128::new(i as u128)).collect();
    assert_eq!(Code::new(&msg, &ntt).unwrap_err(), CodeError::PowerOfTwoLengthRequired);
    let empty: Vec<F128> = Vec::new();
    assert_eq!(Code::new(&empty, &ntt).unwrap_err(), CodeError::PowerOfTwoLengthRequired);
}

#[test]
fn domain_too_small_error_when_cosets_do_not_fit() {
    // 16 wide elements need a domain of size at least 16 * RATE = 2^6.
    let ntt = Ntt::new(5).unwrap();
    let msg: Vec<F128> = (0..16).map(|i| F128::new(i as u128)).collect();
    assert_eq!(Code::new(&msg, &ntt).unwrap_err(), CodeError::DomainTooSmall);
}

#[test]
fn domain_too_large_error() {
    let e = match Ntt::new(25) {
        Ok(_) => panic!("a domain this large must be refused"),
        Err(e) => e,
    };
    assert_eq!(e, CodeError::DomainTooLarge);
}

#[test]
fn length_mismatch_error_on_odd_codeword() {
    let ntt = Ntt::new(6).unwrap();
    let odd = Code { encoding: vec![F128::new(1), F128::new(2), F128::new(3)] };
    assert_eq!(odd.fold_code(F128::new(9), 0, &ntt).unwrap_err(), CodeError::LengthMismatch);
}

#[test]
fn round_out_of_range_error() {
    let ntt = Ntt::new(6).unwrap();
    let msg: Vec<F128> = (0..16).map(|i| F128::new(i as u128)).collect();
    let code = Code::new(&msg, &ntt).unwrap();
    assert_eq!(code.fold_code(F128::new(9), 6, &ntt).unwrap_err(), CodeError::RoundOutOfRange);
    // round 5 is within the domain, but layer 5 has no twiddle for 32 pairs
    assert_eq!(code.fold_code(F128::new(9), 5, &ntt).unwrap_err(), CodeError::RoundOutOfRange);
}

#[test]
fn field_multiplication_facts() {
    // x * x == x^2
    assert_eq!(F128::new(2).mul(F128::new(2)), F128::new(4));
    // x^127 * x == x^128 == x^7 + x^2 + x + 1
    assert_eq!(F128::new(1u128 << 127).mul(F128::new(2)), F128::new(0x87));
    let a = rand_f128();
    assert_eq!(F128::zero().mul(a), F128::zero());
    assert_eq!(F128::one().mul(a), a);
    assert_eq!(a.mul(F128::one()), a);
    assert_eq!(a.add(a), F128::zero());
    assert_eq!(F128::new(0b1100).add(F128::new(0b1010)), F128::new(0b0110));
}

#[test]
fn subspace_evaluations_match_their_polynomials() {
    let ntt = Ntt::new(10).unwrap();
    // W_0(X) = X, so the layer-0 twiddle at index j is the point j << 1.
    for j in 0..512usize {
        assert_eq!(ntt.subspace_eval(0, j), F128::new((j as u128) << 1));
    }
    // W_1(X) = X * (X + 1) = X^2 + X at the point j << 2.
    for j in 0..256usize {
        let p = F128::new((j as u128) << 2);
        assert_eq!(ntt.subspace_eval(1, j), p.mul(p).add(p));
    }
}

#[test]
fn idx_returns_the_entry() {
    let code = Code { encoding: vec![F128::new(10), F128::new(20), F128::new(30)] };
    assert_eq!(code.idx(0), F128::new(10));
    assert_eq!(code.idx(2), F128::new(30));
}

#[test]
fn default_code_is_empty() {
    let code = Code::default();
    assert_eq!(code.encoding.len(), 0);
}

#[test]
fn new_ext_packs_pairs_low_then_high() {
    let ntt = Ntt::new(4).unwrap();
    // one repacked element: encoding is that element evaluated on 4 size-1 cosets,
    // and a size-1 transform is the identity.
    let msg = vec![F64::new(3), F64::new(5)];
    let code = Code::new_ext(&msg, &ntt).unwrap();
    let packed = F128::new(3u128 | (5u128 << 64));
    assert_eq!(code.encoding.len(), RATE);
    for k in 0..RATE {
        assert_eq!(code.idx(k), packed);
    }
}

#[test]
fn transform_rejects_bad_buffer_lengths() {
    let ntt = Ntt::new(6).unwrap();
    let mut buf: Vec<F128> = (0..3).map(|i| F128::new(i as u128)).collect();
    let before = buf.clone();
    assert_eq!(
        ntt.forward_transform(&mut buf, 0).unwrap_err(),
        CodeError::PowerOfTwoLengthRequired
    );
    // a failed transform leaves the buffer untouched
    assert_eq!(buf, before);
}

#[test]
fn transform_rejects_cosets_outside_the_domain() {
    let ntt = Ntt::new(6).unwrap();
    // a 16-point buffer leaves room for 2^(6-4) = 4 cosets: coset 4 is out
    let mut buf: Vec<F128> = (0..16).map(|i| F128::new(i as u128)).collect();
    assert_eq!(ntt.forward_transform(&mut buf, 4).unwrap_err(), CodeError::DomainTooSmall);
    assert!(ntt.forward_transform(&mut buf, 3).is_ok());
}
