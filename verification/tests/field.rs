use p3_field::extension::BinomialExtensionField;
use p3_field::{AbstractExtensionField, AbstractField, TwoAdicField as OuterTwoAdicField};
use zkdtvm_stark_verifier::field::baby_bear::BabyBear;
use zkdtvm_stark_verifier::field::extension::BinomialExtension;
use zkdtvm_stark_verifier::field::koala_bear::KoalaBear;
use zkdtvm_stark_verifier::field::{ExtensionField, Field, PrimeField32, TwoAdicField};

fn outer(n: u32) -> p3_koala_bear::KoalaBear {
    p3_koala_bear::KoalaBear::from_canonical_u32(n)
}

fn outer_residue(x: p3_koala_bear::KoalaBear) -> u32 {
    p3_field::PrimeField32::as_canonical_u32(&x)
}

#[test]
fn inverses_of_both_fields() {
    for n in [1, 2, 3, 1000, 0x7f000000] {
        let x = KoalaBear::from_canonical_u32(n);
        assert_eq!(Field::mul(x, x.try_inverse().unwrap()), KoalaBear::one());
    }
    for n in [1, 2, 3, 1000, 0x78000000] {
        let x = BabyBear::from_canonical_u32(n);
        assert_eq!(Field::mul(x, x.try_inverse().unwrap()), BabyBear::one());
    }
    assert_eq!(KoalaBear::zero().try_inverse(), None);
    assert_eq!(BabyBear::zero().try_inverse(), None);
    assert_eq!(
        KoalaBear::from_canonical_u32(2).try_inverse().unwrap().as_canonical_u32(),
        0x3f800001,
    );
}

#[test]
fn inverses_of_both_extensions() {
    let k: Vec<KoalaBear> = [1, 2, 3, 4].iter().map(|n| KoalaBear::from_canonical_u32(*n)).collect();
    let x = BinomialExtension::<KoalaBear>::from_base_slice(&k);
    assert_eq!(Field::mul(x, x.try_inverse().unwrap()), BinomialExtension::<KoalaBear>::one());
    let b: Vec<BabyBear> = [1, 2, 3, 4].iter().map(|n| BabyBear::from_canonical_u32(*n)).collect();
    let y = BinomialExtension::<BabyBear>::from_base_slice(&b);
    assert_eq!(Field::mul(y, y.try_inverse().unwrap()), BinomialExtension::<BabyBear>::one());
    assert_eq!(BinomialExtension::<KoalaBear>::zero().try_inverse(), None);
    assert_eq!(BinomialExtension::<BabyBear>::zero().try_inverse(), None);
}

#[test]
fn arithmetic_agrees_with_the_outer_field() {
    let pairs = [(5, 7), (0x7f000000, 0x7f000000), (123456789, 987654321)];
    for (a, b) in pairs {
        let (x, y) = (KoalaBear::from_canonical_u32(a), KoalaBear::from_canonical_u32(b));
        let (u, v) = (outer(a), outer(b));
        assert_eq!(Field::add(x, y).as_canonical_u32(), outer_residue(u + v));
        assert_eq!(Field::sub(x, y).as_canonical_u32(), outer_residue(u - v));
        assert_eq!(Field::mul(x, y).as_canonical_u32(), outer_residue(u * v));
    }
}

#[test]
fn extension_product_agrees_with_the_outer_extension() {
    let (a, b) = ([1u32, 20, 300, 4000], [50000u32, 600, 70, 8]);
    let inner = |c: [u32; 4]| {
        let v: Vec<KoalaBear> = c.iter().map(|n| KoalaBear::from_canonical_u32(*n)).collect();
        BinomialExtension::<KoalaBear>::from_base_slice(&v)
    };
    let wide = |c: [u32; 4]| {
        let v: Vec<p3_koala_bear::KoalaBear> = c.iter().map(|n| outer(*n)).collect();
        BinomialExtensionField::<p3_koala_bear::KoalaBear, 4>::from_base_slice(&v)
    };
    let r = Field::mul(inner(a), inner(b));
    let s = wide(a) * wide(b);
    let s: &[p3_koala_bear::KoalaBear] = s.as_base_slice();
    let t = [r.c0, r.c1, r.c2, r.c3];
    for i in 0..4 {
        assert_eq!(t[i].as_canonical_u32(), outer_residue(s[i]));
    }
}

#[test]
fn generators_are_square_roots_of_each_other() {
    for bits in 1..=24 {
        let g = <KoalaBear as TwoAdicField>::two_adic_generator(bits);
        assert_eq!(Field::mul(g, g), <KoalaBear as TwoAdicField>::two_adic_generator(bits - 1));
        let h = p3_koala_bear::KoalaBear::two_adic_generator(bits);
        assert_eq!(g.as_canonical_u32(), outer_residue(h));
    }
    for bits in 1..=27 {
        let g = <BabyBear as TwoAdicField>::two_adic_generator(bits);
        assert_eq!(Field::mul(g, g), <BabyBear as TwoAdicField>::two_adic_generator(bits - 1));
    }
    let minus_one = KoalaBear::from_canonical_u32(0x7f000000);
    assert_eq!(<KoalaBear as TwoAdicField>::two_adic_generator(1), minus_one);
}

#[test]
fn extension_generators_are_square_roots_of_each_other() {
    for bits in 1..=26 {
        let g = <BinomialExtension<KoalaBear> as TwoAdicField>::two_adic_generator(bits);
        let f = <BinomialExtension<KoalaBear> as TwoAdicField>::two_adic_generator(bits - 1);
        assert_eq!(Field::mul(g, g), f);
    }
    for bits in 1..=29 {
        let g = <BinomialExtension<BabyBear> as TwoAdicField>::two_adic_generator(bits);
        let f = <BinomialExtension<BabyBear> as TwoAdicField>::two_adic_generator(bits - 1);
        assert_eq!(Field::mul(g, g), f);
    }
}
