use jetty::scalar::{INFINITY_BITS, MAX_BITS, ONE_BITS, PI_BITS, TWO_PI_BITS};
use jetty::{InvalidMomentum, PseudoJet, Scalar};

fn scalar(x: f64) -> Scalar {
    Scalar::from_bits(x.to_bits()).unwrap()
}

#[test]
fn scalar_rejects_nan() {
    assert!(Scalar::from_bits(f64::NAN.to_bits()).is_none());
    assert!(Scalar::from_bits((-f64::NAN).to_bits()).is_none());
    assert!(Scalar::from_bits(0x7FF0_0000_0000_0001).is_none());
    assert!(Scalar::from_bits(0xFFFF_FFFF_FFFF_FFFF).is_none());
    assert!(Scalar::from_bits(f64::INFINITY.to_bits()).is_some());
    assert!(Scalar::from_bits(f64::NEG_INFINITY.to_bits()).is_some());
}

#[test]
fn scalar_keeps_bits() {
    for x in [0.0, -0.0, 1.5, -2.25, f64::MAX, f64::MIN_POSITIVE, f64::INFINITY] {
        assert_eq!(scalar(x).to_bits(), x.to_bits());
    }
}

#[test]
fn scalar_constants() {
    assert_eq!(Scalar::zero().to_bits(), 0.0f64.to_bits());
    assert_eq!(Scalar::one().to_bits(), 1.0f64.to_bits());
    assert_eq!(Scalar::infinity().to_bits(), f64::INFINITY.to_bits());
    assert_eq!(Scalar::max_value().to_bits(), f64::MAX.to_bits());
    assert_eq!(ONE_BITS, 1.0f64.to_bits());
    assert_eq!(INFINITY_BITS, f64::INFINITY.to_bits());
    assert_eq!(MAX_BITS, f64::MAX.to_bits());
    assert_eq!(PI_BITS, std::f64::consts::PI.to_bits());
    assert_eq!(TWO_PI_BITS, (2. * std::f64::consts::PI).to_bits());
}

#[test]
fn scalar_order_is_numeric_order() {
    let xs = [
        f64::NEG_INFINITY,
        f64::MIN,
        -3.5,
        -1.0,
        -f64::MIN_POSITIVE,
        -5e-324,
        0.0,
        5e-324,
        f64::MIN_POSITIVE,
        0.5,
        1.0,
        std::f64::consts::PI,
        1e300,
        f64::MAX,
        f64::INFINITY,
    ];
    for (i, &a) in xs.iter().enumerate() {
        for (j, &b) in xs.iter().enumerate() {
            assert_eq!(scalar(a).lt(scalar(b)), i < j, "{a} < {b}");
            assert_eq!(scalar(a).le(scalar(b)), i <= j, "{a} <= {b}");
            assert_eq!(scalar(a) == scalar(b), i == j);
            let lo = if i <= j { a } else { b };
            let hi = if i <= j { b } else { a };
            assert_eq!(scalar(a).min(scalar(b)).to_bits(), lo.to_bits());
            assert_eq!(scalar(a).max(scalar(b)).to_bits(), hi.to_bits());
        }
    }
}

#[test]
fn scalar_negative_zero_comes_before_zero() {
    assert!(scalar(-0.0).lt(scalar(0.0)));
    assert!(!scalar(0.0).lt(scalar(-0.0)));
    assert!(scalar(-0.0).is_sign_negative());
    assert!(!scalar(0.0).is_sign_negative());
    assert!(scalar(-1.0).is_sign_negative());
}

#[test]
fn pseudojet_new_is_zero_momentum() {
    let p = PseudoJet::new();
    assert_eq!(p.e(), scalar(0.));
    assert_eq!(p.px(), scalar(0.));
    assert_eq!(p.py(), scalar(0.));
    assert_eq!(p.pz(), scalar(0.));
    assert_eq!(p.phi(), scalar(0.));
    assert_eq!(p.rap(), scalar(0.));
    assert_eq!(p.inv_pt2(), scalar(f64::INFINITY));
}

#[test]
fn pseudojet_from_parts_keeps_parts() {
    let p = PseudoJet::from_parts(
        scalar(5.),
        scalar(1.),
        scalar(-2.),
        scalar(3.),
        scalar(0.2),
        scalar(5.176036589385496),
        scalar(0.6931471805599453),
    )
    .unwrap();
    assert_eq!(p.e(), scalar(5.));
    assert_eq!(p.px(), scalar(1.));
    assert_eq!(p.py(), scalar(-2.));
    assert_eq!(p.pz(), scalar(3.));
    assert_eq!(p.inv_pt2(), scalar(0.2));
    assert_eq!(p.phi(), scalar(5.176036589385496));
    assert_eq!(p.rap(), scalar(0.6931471805599453));
    for i in 0..4 {
        assert_eq!(p.component(i), [p.e(), p.px(), p.py(), p.pz()][i]);
    }
    for i in 0..7 {
        assert_eq!(
            p.part(i),
            [p.e(), p.px(), p.py(), p.pz(), p.inv_pt2(), p.phi(), p.rap()][i]
        );
    }
}

#[test]
fn pseudojet_azimuth_has_to_be_normalised() {
    let make = |phi: f64| {
        PseudoJet::from_parts(
            scalar(1.),
            scalar(1.),
            scalar(0.),
            scalar(0.),
            scalar(1.),
            scalar(phi),
            scalar(0.),
        )
    };
    let two_pi = 2. * std::f64::consts::PI;
    assert!(make(0.).is_ok());
    assert!(make(3.).is_ok());
    assert!(make(f64::from_bits(two_pi.to_bits() - 1)).is_ok());
    assert_eq!(make(two_pi), Err(InvalidMomentum::AzimuthOutOfRange));
    assert_eq!(make(7.), Err(InvalidMomentum::AzimuthOutOfRange));
    assert_eq!(make(-0.0), Err(InvalidMomentum::AzimuthOutOfRange));
    assert_eq!(make(-1.), Err(InvalidMomentum::AzimuthOutOfRange));
    assert_eq!(make(f64::INFINITY), Err(InvalidMomentum::AzimuthOutOfRange));
}

#[test]
fn pseudojet_from_bits_rejects_nan() {
    let good = [1.0f64, 0.5, 0.5, 0.0, 2.0, 0.7853981633974483, 0.0];
    let bits = |xs: [f64; 7]| {
        let mut out = [0u64; 7];
        for i in 0..7 {
            out[i] = xs[i].to_bits();
        }
        out
    };
    let p = PseudoJet::from_bits(bits(good)).unwrap();
    for i in 0..7 {
        assert_eq!(p.part(i).to_bits(), good[i].to_bits());
    }
    for i in 0..7 {
        let mut bad = good;
        bad[i] = f64::NAN;
        assert_eq!(PseudoJet::from_bits(bits(bad)), Err(InvalidMomentum::NotANumber));
    }
    let mut far = good;
    far[5] = 6.5;
    assert_eq!(PseudoJet::from_bits(bits(far)), Err(InvalidMomentum::AzimuthOutOfRange));
    far[0] = f64::NAN;
    assert_eq!(PseudoJet::from_bits(bits(far)), Err(InvalidMomentum::NotANumber));
}

#[test]
fn pseudojet_order_goes_by_the_first_difference() {
    let make = |e: f64, px: f64, rap: f64| {
        PseudoJet::from_parts(
            scalar(e),
            scalar(px),
            scalar(0.),
            scalar(0.),
            scalar(1.),
            scalar(0.),
            scalar(rap),
        )
        .unwrap()
    };
    let a = make(1., 5., 0.);
    let b = make(2., -5., 0.);
    let c = make(2., -5., 0.5);
    let d = make(2., -4., -3.);
    assert!(a.lt(&b));
    assert!(!b.lt(&a));
    assert!(b.lt(&c));
    assert!(!c.lt(&b));
    assert!(c.lt(&d));
    assert!(!d.lt(&c));
    assert!(a.lt(&d));
    assert!(!a.lt(&a));
    assert!(!c.lt(&c));
    assert_eq!(b, make(2., -5., 0.));
    assert_ne!(b, c);
}

#[test]
fn operators_follow_the_order() {
    assert!(scalar(-1.) < scalar(0.5));
    assert!(scalar(0.5) > scalar(-1.));
    assert!(scalar(0.5) <= scalar(0.5));
    assert!(scalar(0.5) >= scalar(0.5));
    assert!(!(scalar(0.5) < scalar(0.5)));
    assert!(scalar(f64::MAX) < scalar(f64::INFINITY));
    assert_eq!(scalar(2.).partial_cmp(&scalar(3.)), Some(std::cmp::Ordering::Less));
    assert_eq!(scalar(3.).partial_cmp(&scalar(3.)), Some(std::cmp::Ordering::Equal));
    assert_eq!(scalar(4.).partial_cmp(&scalar(3.)), Some(std::cmp::Ordering::Greater));
    let make = |e: f64, rap: f64| {
        PseudoJet::from_parts(
            scalar(e),
            scalar(0.),
            scalar(0.),
            scalar(0.),
            scalar(1.),
            scalar(0.),
            scalar(rap),
        )
        .unwrap()
    };
    assert!(make(1., 5.) < make(2., -5.));
    assert!(make(2., -5.) < make(2., 5.));
    assert!(make(2., 5.) > make(2., -5.));
    assert!(make(2., 5.) >= make(2., 5.));
    assert_eq!(make(2., 5.).partial_cmp(&make(2., 5.)), Some(std::cmp::Ordering::Equal));
}

#[test]
fn default_pseudojet_is_zero_momentum() {
    assert_eq!(PseudoJet::default(), PseudoJet::new());
}
