use zkdtvm_stark_verifier::basefold::eqpoly::{EqPolynomial, PARALLEL_THRESHOLD};
use zkdtvm_stark_verifier::field::baby_bear::BabyBear;
use zkdtvm_stark_verifier::field::Field;

fn f(val: u32) -> BabyBear {
    BabyBear::from_u64(val as u64)
}

fn one() -> BabyBear {
    BabyBear::one()
}

fn total(values: &[BabyBear]) -> BabyBear {
    values.iter().fold(BabyBear::zero(), |a, b| Field::add(a, *b))
}

#[test]
fn test_evals_single_variable() {
    let eq = EqPolynomial::new(vec![f(3)]);
    let evals = eq.evals();
    assert_eq!(evals.len(), 2);
    assert_eq!(evals[0], Field::sub(one(), f(3)));
    assert_eq!(evals[1], f(3));
}

#[test]
fn test_evals_two_variables() {
    let r0 = f(2);
    let r1 = f(5);
    let eq = EqPolynomial::new(vec![r0, r1]);
    let evals = eq.evals();
    assert_eq!(evals.len(), 4);

    let n0 = Field::sub(one(), r0);
    let n1 = Field::sub(one(), r1);
    assert_eq!(evals[0], Field::mul(n0, n1));
    assert_eq!(evals[1], Field::mul(n0, r1));
    assert_eq!(evals[2], Field::mul(r0, n1));
    assert_eq!(evals[3], Field::mul(r0, r1));
}

#[test]
fn test_evaluate_matches_evals() {
    let r = vec![f(7), f(11)];
    let eq = EqPolynomial::new(r.clone());
    let evals = eq.evals();
    assert_eq!(evals.len(), 4);

    let all_zero = Field::mul(Field::sub(one(), r[0]), Field::sub(one(), r[1]));
    assert_eq!(evals[0], all_zero, "index 0 should be eq(r, (0,0))");

    let all_one = Field::mul(r[0], r[1]);
    assert_eq!(evals[3], all_one, "index 3 should be eq(r, (1,1))");

    assert_eq!(total(&evals), one());
}

#[test]
fn test_evals_sum_to_one() {
    let r = vec![f(3), f(7), f(11), f(13)];
    let eq = EqPolynomial::new(r);
    assert_eq!(total(&eq.evals()), one());
}

#[test]
fn test_serial_and_parallel_agree() {
    let num_vars = PARALLEL_THRESHOLD + 1;
    let r: Vec<BabyBear> = (1..=num_vars as u32).map(f).collect();
    let eq = EqPolynomial::new(r);
    assert_eq!(eq.evals_serial(), eq.evals_parallel());
}

#[test]
fn test_to_ml_length() {
    let r = vec![f(2), f(3), f(5)];
    let eq = EqPolynomial::new(r);
    let ml = eq.to_ml();
    assert_eq!(ml.len(), 8);
    assert_eq!(ml.get_num_vars(), 3);
}

#[test]
fn test_evaluate_symmetry() {
    let r = vec![f(3), f(7)];
    let x = vec![f(5), f(11)];
    let eq = EqPolynomial::new(r.clone());
    let result = eq.evaluate(&x);

    let factor = |a: BabyBear, b: BabyBear| {
        Field::add(
            Field::mul(a, b),
            Field::mul(Field::sub(one(), a), Field::sub(one(), b)),
        )
    };
    let expected = Field::mul(factor(r[0], x[0]), factor(r[1], x[1]));
    assert_eq!(result, expected);
}

#[test]
fn test_empty_polynomial() {
    let eq = EqPolynomial::<BabyBear>::new(vec![]);
    let evals = eq.evals();
    assert_eq!(evals.len(), 1);
    assert_eq!(evals[0], one());
}
