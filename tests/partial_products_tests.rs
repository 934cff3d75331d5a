use chunked_products::field::ORDER;
use chunked_products::{
    check_partial_products, check_partial_products_recursively, num_partial_products,
    partial_products, CircuitBuilder, GoldilocksField, Target,
};

type F = GoldilocksField;

#[test]
fn test_partial_products() {
    let denominators = vec![F::one(); 6];
    let v = [1u64, 2, 3, 4, 5, 6]
        .iter()
        .map(|&i| F::from_canonical_u64(i))
        .collect::<Vec<_>>();
    let p = partial_products(&v, 2);
    assert_eq!(
        p,
        [2u64, 24, 720]
            .iter()
            .map(|&i| F::from_canonical_u64(i))
            .collect::<Vec<_>>()
    );

    let nums = num_partial_products(v.len(), 2);
    assert_eq!(p.len(), nums.0);
    assert!(check_partial_products(&v, &denominators, &p, F::one(), 2)
        .iter()
        .all(|x| x.is_zero()));
    assert_eq!(
        p.last().unwrap().mul(v[nums.1..].iter().fold(F::one(), |a, &x| a.mul(x))),
        v.iter().fold(F::one(), |a, &x| a.mul(x)),
    );

    let v = [1u64, 2, 3, 4, 5, 6]
        .iter()
        .map(|&i| F::from_canonical_u64(i))
        .collect::<Vec<_>>();
    let p = partial_products(&v, 3);
    assert_eq!(
        p,
        [6u64, 720]
            .iter()
            .map(|&i| F::from_canonical_u64(i))
            .collect::<Vec<_>>()
    );
    let nums = num_partial_products(v.len(), 3);
    assert_eq!(p.len(), nums.0);
    assert!(check_partial_products(&v, &denominators, &p, F::one(), 3)
        .iter()
        .all(|x| x.is_zero()));
    assert_eq!(
        p.last().unwrap().mul(v[nums.1..].iter().fold(F::one(), |a, &x| a.mul(x))),
        v.iter().fold(F::one(), |a, &x| a.mul(x)),
    );
}

fn elements(xs: &[u64]) -> Vec<F> {
    xs.iter().map(|&i| F::from_canonical_u64(i)).collect()
}

fn canonical(xs: &[F]) -> Vec<u64> {
    xs.iter().map(|x| x.to_canonical_u64()).collect()
}

#[test]
fn field_arithmetic_wraps_at_the_order() {
    let top = F::from_canonical_u64(ORDER - 1);
    assert_eq!(top.mul(top).to_canonical_u64(), 1);
    assert_eq!(top.add(F::from_canonical_u64(2)).to_canonical_u64(), 1);
    assert_eq!(F::zero().sub(F::one()).to_canonical_u64(), ORDER - 1);
    assert_eq!(F::from_canonical_u64(7).sub(F::from_canonical_u64(3)).to_canonical_u64(), 4);
    assert!(GoldilocksField(ORDER).is_zero());
    assert_eq!(GoldilocksField(ORDER + 5), F::from_canonical_u64(5));
    assert_ne!(F::one(), F::zero());
    assert_eq!(
        F::from_canonical_u64(1 << 32).mul(F::from_canonical_u64(1 << 32)).to_canonical_u64(),
        (1u64 << 32) - 1
    );
}

#[test]
fn accumulate_drops_the_remainder() {
    let v = elements(&[2, 3, 5, 7, 11, 13, 17]);
    let p = partial_products(&v, 3);
    assert_eq!(canonical(&p), vec![30, 30030]);
    let p = partial_products(&v, 2);
    assert_eq!(canonical(&p), vec![6, 210, 30030]);
    let p = partial_products(&v, 7);
    assert_eq!(canonical(&p), vec![510510]);
    let p = partial_products(&v, 8);
    assert!(p.is_empty());
    assert!(partial_products(&[], 2).is_empty());
}

#[test]
fn accumulate_reduces_modulo_the_order() {
    let v = elements(&[ORDER - 1, ORDER - 1, ORDER - 1, 2]);
    let p = partial_products(&v, 2);
    assert_eq!(canonical(&p), vec![1, ORDER - 2]);
}

#[test]
fn layout_counts_chunks_and_consumed() {
    assert_eq!(num_partial_products(6, 2), (3, 6));
    assert_eq!(num_partial_products(6, 3), (2, 6));
    assert_eq!(num_partial_products(7, 3), (2, 6));
    assert_eq!(num_partial_products(1, 2), (0, 0));
    assert_eq!(num_partial_products(0, 5), (0, 0));
    for n in 0..20usize {
        for d in 2..6usize {
            let v = elements(&vec![3; n]);
            let (count, consumed) = num_partial_products(n, d);
            assert_eq!(partial_products(&v, d).len(), count);
            assert_eq!(consumed, count * d);
            assert!(consumed <= n);
        }
    }
}

#[test]
fn tail_law_with_a_remainder() {
    let v = elements(&[2, 3, 5, 7, 11, 13, 17, 19]);
    let p = partial_products(&v, 3);
    let (_, consumed) = num_partial_products(v.len(), 3);
    assert_eq!(consumed, 6);
    let tail = v[consumed..].iter().fold(F::one(), |a, &x| a.mul(x));
    let all = v.iter().fold(F::one(), |a, &x| a.mul(x));
    assert_eq!(p.last().unwrap().mul(tail), all);
    assert_eq!(all.to_canonical_u64(), 9699690);
}

#[test]
fn check_scenario_returns_zero_residuals() {
    let v = elements(&[1, 2, 3, 4, 5, 6]);
    let ones = elements(&[1; 6]);
    let r = check_partial_products(&v, &ones, &elements(&[2, 24, 720]), F::one(), 2);
    assert_eq!(canonical(&r), vec![0, 0, 0]);
}

#[test]
fn check_round_trip_on_large_values() {
    let v = elements(&[ORDER - 1, 12345678901234, 99, ORDER - 7, 5, 1 << 40, 3]);
    let ones = vec![F::one(); v.len()];
    for d in 2..5usize {
        let p = partial_products(&v, d);
        let r = check_partial_products(&v, &ones, &p, F::one(), d);
        assert_eq!(r.len(), v.len() / d);
        assert!(r.iter().all(|x| x.is_zero()));
    }
}

#[test]
fn check_detects_each_tampered_partial() {
    let v = elements(&[1, 2, 3, 4, 5, 6]);
    let ones = vec![F::one(); 6];
    let p = partial_products(&v, 2);
    for j in 0..p.len() {
        let mut bad = p.clone();
        bad[j] = bad[j].add(F::one());
        let r = check_partial_products(&v, &ones, &bad, F::one(), 2);
        assert!(!r[j].is_zero());
        // the claimed value is carried forward, so the next chunk fails too
        if j + 1 < r.len() {
            assert!(!r[j + 1].is_zero());
        }
        for k in 0..j {
            assert!(r[k].is_zero());
        }
    }
}

#[test]
fn check_exact_residuals_with_denominators() {
    // chunk 0: 7 * (2 * 3) - 5 * (4 * 1) = 22; chunk 1: 5 * (5 * 6) - 9 * (2 * 2) = 114
    let num = elements(&[2, 3, 5, 6]);
    let den = elements(&[4, 1, 2, 2]);
    let partials = elements(&[5, 9]);
    let r = check_partial_products(&num, &den, &partials, F::from_canonical_u64(7), 2);
    assert_eq!(canonical(&r), vec![22, 114]);
    // 1 * 2 - 3 * 1 is -1 in the field
    let r = check_partial_products(
        &elements(&[1, 2]),
        &elements(&[1, 1]),
        &elements(&[3]),
        F::one(),
        2,
    );
    assert_eq!(canonical(&r), vec![ORDER - 1]);
    assert!(check_partial_products(&[], &[], &[], F::one(), 2).is_empty());
}

fn inputs(builder: &mut CircuitBuilder, n: usize) -> Vec<Target> {
    (0..n).map(|_| builder.add_virtual_target()).collect()
}

#[test]
fn circuit_check_matches_numeric_check() {
    let cases: Vec<(Vec<u64>, Vec<u64>, Vec<u64>, u64, usize)> = vec![
        (vec![1, 2, 3, 4, 5, 6], vec![1; 6], vec![2, 24, 720], 1, 2),
        (vec![1, 2, 3, 4, 5, 6], vec![1; 6], vec![2, 25, 720], 1, 2),
        (vec![2, 3, 5, 6, 7], vec![4, 1, 2, 2, 9], vec![5, 9], 7, 2),
        (vec![ORDER - 1, 8, 9, 10, 11, 12, 13], vec![3, 3, 3, 5, 5, 5, 5], vec![ORDER - 2, 77], 4, 3),
    ];
    for (num, den, partials, acc, d) in cases {
        let mut builder = CircuitBuilder::new();
        let num_t = inputs(&mut builder, num.len());
        let den_t = inputs(&mut builder, den.len());
        let par_t = inputs(&mut builder, partials.len());
        let acc_t = builder.add_virtual_target();
        let res_t =
            check_partial_products_recursively(&mut builder, &num_t, &den_t, &par_t, acc_t, d);

        let mut witness = Vec::new();
        witness.extend(elements(&num));
        witness.extend(elements(&den));
        witness.extend(elements(&partials));
        witness.push(F::from_canonical_u64(acc));
        witness.resize(builder.wires.len(), F::zero());
        let values = builder.evaluate(&witness);
        let from_circuit: Vec<u64> =
            res_t.iter().map(|t| values[t.index].to_canonical_u64()).collect();

        let expected = check_partial_products(
            &elements(&num),
            &elements(&den),
            &elements(&partials),
            F::from_canonical_u64(acc),
            d,
        );
        assert_eq!(from_circuit, canonical(&expected));
    }
}

#[test]
fn circuit_products_of_targets() {
    let mut builder = CircuitBuilder::new();
    let ts = inputs(&mut builder, 3);
    let empty = builder.mul_many(&[]);
    let all = builder.mul_many(&ts);
    let two = builder.mul(ts[0], ts[1]);
    let diff = builder.mul_sub(ts[0], ts[1], ts[2]);
    let c = builder.constant(F::from_canonical_u64(42));
    let mut witness = elements(&[3, 5, 100]);
    witness.resize(builder.wires.len(), F::zero());
    let values = builder.evaluate(&witness);
    assert_eq!(values[empty.index].to_canonical_u64(), 1);
    assert_eq!(values[all.index].to_canonical_u64(), 1500);
    assert_eq!(values[two.index].to_canonical_u64(), 15);
    assert_eq!(values[diff.index].to_canonical_u64(), ORDER - 85);
    assert_eq!(values[c.index].to_canonical_u64(), 42);
}
