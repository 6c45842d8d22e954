use fri::algebra::FieldElement;
use fri::univariate::Polynomial;
use rand::Rng;
use rand::RngCore;
use rand::rngs::OsRng;

#[test]
pub fn test_distributivity() {
    let zero = FieldElement::zero();
    let one = FieldElement::one();
    let two = FieldElement::new(2);
    let five = FieldElement::new(5);

    let a = Polynomial::new(vec![one, zero, five, two]);
    let b = Polynomial::new(vec![two, two, one]);
    let c = Polynomial::new(vec![zero, five, two, five, five, one]);

    let lhs = a.clone().mul(b.clone().add(c.clone()));
    let rhs = a.clone().mul(b.clone()).add(a.clone().mul(c.clone()));

    assert!(lhs == rhs);

    println!("univariate polynomial distributivity success \\o/")
}

#[test]
pub fn test_divsion() {
    let zero = FieldElement::zero();
    let one = FieldElement::one();
    let two = FieldElement::new(2);
    let five = FieldElement::new(5);

    let a = Polynomial::new(vec![one, zero, five, two]);
    let b = Polynomial::new(vec![two, two, one]);
    let c = Polynomial::new(vec![zero, five, two, five, five, one]);

    // a should divide a*b, quotient should be b
    let (quo, rem) = a.clone().mul(b.clone()).divide(&a);
    assert!(rem.is_zero(), "fail division test 1");
    assert!(quo == b, "fail division test 2");

    // b should divide a*b, quotient should be a
    let (quo, rem) = a.clone().mul(b.clone()).divide(&b);
    assert!(rem.is_zero(), "fail division test 3");
    assert!(quo == a, "fail division test 4");

    // c should not divide a*b
    let (quo, rem) = a.clone().mul(b.clone()).divide(&c);
    assert!(!rem.is_zero(), "fail division test 5");

    // ... but quo * c + rem == a*b
    assert!(
        quo.clone().mul(c.clone()).add(rem.clone()) == a.clone().mul(b.clone()),
        "fail division test 6"
    );

    println!("univariate polynomial division success \\o/");
}

#[test]
pub fn test_interpolate() {
    let zero = FieldElement::zero();
    let one = FieldElement::one();
    let two = FieldElement::new(2);
    let five = FieldElement::new(5);

    let values = vec![five, two, two, one, five, zero];
    let mut domain = vec![];
    for i in 1..6 {
        domain.push(FieldElement::new(i as u128));
    }

    let poly = Polynomial::interpolate_domain(&domain, &values);

    for i in 0..domain.len() {
        assert!(poly.evaluate(domain[i]).value == values[i].value, "fail interpolate test 1");
    }

    // evaluation in random point is nonzero with high probability
    assert!(poly.evaluate(FieldElement::new(363)).value != zero.value, "fail interpolate test 2");

    assert!(poly.degree() == (domain.len() - 1) as i128, "fail interpolate test 3");

    println!("univariate polynomial interpolate success \\o/");
}

#[test]
pub fn test_zerofier() {
    for _trial in 0..100 {
        let mut rng = rand::thread_rng();

        let degree: u8 = rng.gen();

        let mut domain: Vec<FieldElement> = Vec::new();

        while domain.len() != degree as usize {
            let mut fake_index = [0u8; 32];
            OsRng.fill_bytes(&mut fake_index);
            let new = FieldElement::sample(&fake_index);

            domain.push(new.clone());
        }

        let zerofier = Polynomial::zerofier_domain(&domain);

        assert!(
            zerofier.degree() == degree as i128,
            "zerofier has degree unequal to size of domain"
        );

        for d in 0..domain.len() {
            assert!(
                zerofier.evaluate(domain[d]).value == FieldElement::zero().value,
                "zerofier has degree unequal to size of domain"
            );
        }

        let mut fake_index = [0u8; 32];
        OsRng.fill_bytes(&mut fake_index);

        // Almost no chance of collision here
        let random = FieldElement::sample(&fake_index);

        assert!(
            zerofier.evaluate(random.clone()).value != FieldElement::zero().value,
            "zerofier evaluates to zero where it should not"
        );
    }
    println!("univariate zerofier test success \\o/");
}

#[test]
fn test_scale() {
    let p = Polynomial::new(vec![
        FieldElement::new(3),
        FieldElement::new(5),
        FieldElement::new(7),
    ]);
    // p(2x) has coefficients 3, 10, 28
    let s = p.scale(FieldElement::new(2));
    assert_eq!(s.coefs[0].value, 3);
    assert_eq!(s.coefs[1].value, 10);
    assert_eq!(s.coefs[2].value, 28);
}

#[test]
fn test_equality_ignores_trailing_zeros() {
    let zero = FieldElement::zero();
    let one = FieldElement::one();
    let a = Polynomial::new(vec![one, zero, zero]);
    let b = Polynomial::new(vec![one]);
    assert!(a == b);
    // two zero polynomials are equal, whatever their storage
    let z1 = Polynomial::new(vec![]);
    let z2 = Polynomial::new(vec![zero, zero]);
    assert!(z1 == z2);
    // and a nonzero one differs from zero
    assert!(!(a == z1));
}

#[test]
fn test_divide_by_zero_polynomial() {
    let one = FieldElement::one();
    let a = Polynomial::new(vec![one, one]);
    let z = Polynomial::new(vec![]);
    // division by the zero polynomial is a defensive no-op
    let (quo, rem) = a.divide(&z);
    assert_eq!(quo.coefs.len(), 0);
    assert_eq!(rem.coefs.len(), 0);
    assert_eq!(a.degree(), 1);
    assert_eq!(z.degree(), -1);
}

#[test]
fn test_colinearity_check() {
    // three points on y = 2x + 1 are colinear; bending one breaks it
    let xs: Vec<FieldElement> = (1..=3u128).map(FieldElement::new).collect();
    let ys: Vec<FieldElement> = vec![
        FieldElement::new(3),
        FieldElement::new(5),
        FieldElement::new(7),
    ];
    assert!(Polynomial::test_colinearity(xs.clone(), ys));
    let bent = vec![
        FieldElement::new(3),
        FieldElement::new(5),
        FieldElement::new(8),
    ];
    assert!(!Polynomial::test_colinearity(xs, bent));
}
