//! The parts that need no rounding arithmetic.
use pf_core::config::{BackendKind, PfConfig};
use pf_core::num::{
    num, Num, HALF, MICRO, MINUS_P4, NANO, NINE, P02, P03, P05, P65, PI, ROOT3, TAU, THREE, TWO7,
};
use pf_core::pgm::read_image;
use pf_core::ranking::ranking;
use pf_core::rng::{next_generation_of, stream_seed_of, xorshift_step};

fn n(x: f64) -> Num {
    Num { bits: x.to_bits() }
}

fn f(x: Num) -> f64 {
    f64::from_bits(x.bits)
}

/// Numbers of every sort.
fn samples() -> Vec<f64> {
    vec![
        0.0,
        -0.0,
        1.0,
        -1.0,
        1.5e-310,
        -1.5e-310,
        1e300,
        -1e300,
        f64::INFINITY,
        f64::NEG_INFINITY,
        f64::NAN,
        -f64::NAN,
    ]
}

#[test]
fn comparisons_are_those_of_binary64() {
    for a in samples() {
        assert_eq!(n(a).is_nan(), a.is_nan());
        assert_eq!(n(a).is_finite(), a.is_finite());
        assert_eq!(n(a).neg().bits, (-a).to_bits());
        assert_eq!(n(a).abs().bits, a.abs().to_bits());
        for b in samples() {
            assert_eq!(n(a).less(n(b)), a < b);
            assert_eq!(n(a).at_most(n(b)), a <= b);
            assert_eq!(n(a) == n(b), a == b);
            let max = f(n(a).max(n(b)));
            assert!(max == a.max(b) || max.is_nan() && a.max(b).is_nan());
            let min = f(n(a).min(n(b)));
            assert!(min == a.min(b) || min.is_nan() && a.min(b).is_nan());
        }
        let held = f(n(a).clamp(n(-1.0), n(1.0)));
        assert!(held == a.clamp(-1.0, 1.0) || held.is_nan() && a.is_nan());
    }
}

#[test]
fn constants_have_their_values() {
    assert_eq!(f(num(PI)), std::f64::consts::PI);
    assert_eq!(f(num(TAU)), std::f64::consts::TAU);
    assert_eq!(f(num(HALF)), 0.5);
    assert_eq!(f(num(MICRO)), 1e-6);
    assert_eq!(f(num(NANO)), 1e-9);
    assert_eq!(f(num(P02)), 0.02);
    assert_eq!(f(num(P03)), 0.03);
    assert_eq!(f(num(P05)), 0.05);
    assert_eq!(f(num(P65)), 0.65);
    assert_eq!(f(num(MINUS_P4)), -0.4);
    assert_eq!(f(num(ROOT3)), 1.732);
    assert_eq!(f(num(TWO7)), 2.7);
    assert_eq!(f(num(THREE)), 3.0);
    assert_eq!(f(num(NINE)), 9.0);
}

#[test]
fn words_name_backends() {
    assert_eq!(BackendKind::parse("cuda"), BackendKind::Cuda);
    assert_eq!(BackendKind::parse("cpu"), BackendKind::Cpu);
    assert_eq!(BackendKind::parse("auto"), BackendKind::Auto);
    assert_eq!(BackendKind::parse("CPU"), BackendKind::Auto);
    assert_eq!(BackendKind::parse(""), BackendKind::Auto);
}

#[test]
fn the_default_configuration() {
    let c = PfConfig::default();
    assert_eq!(c.particle_count, 4096);
    assert_eq!(c.seed, 42);
    assert_eq!(c.backend, BackendKind::Auto);
    assert_eq!(c.trans_noise.map(f), [0.05, 0.05, 0.02]);
    assert_eq!(c.rot_noise.map(f), [0.02, 0.02, 0.03]);
    assert_eq!((f(c.range_noise), f(c.bearing_noise)), (0.05, 0.02));
    assert_eq!((f(c.resample_ess_ratio), f(c.random_inject_ratio)), (0.5, 0.0));
    assert_eq!(f(c.gate_sigma), 0.0);
}

#[test]
fn ranking_is_stable() {
    assert_eq!(ranking(&vec![3, -1, 3, 0, -1]), vec![1, 4, 3, 0, 2]);
    assert_eq!(ranking(&vec![]), Vec::<usize>::new());
    assert_eq!(ranking(&vec![i64::MAX, i64::MIN]), vec![1, 0]);
    let keys: Vec<i64> = (0..1000).map(|k| (k * 7919) % 101).collect();
    let mut want: Vec<usize> = (0..1000).collect();
    want.sort_by_key(|p| keys[*p]);
    assert_eq!(ranking(&keys), want);
}

#[test]
fn stream_seeds_are_splitmix() {
    let want = |g: u64, i: u64| {
        let mut z = g
            .wrapping_mul(0x9E3779B97F4A7C15)
            .wrapping_add(i.wrapping_mul(0xBF58476D1CE4E5B9));
        z = (z ^ (z >> 30)).wrapping_mul(0xBF58476D1CE4E5B9);
        z = (z ^ (z >> 27)).wrapping_mul(0x94D049BB133111EB);
        z ^ (z >> 31)
    };
    let mut seen = Vec::new();
    for g in [0, 42, u64::MAX] {
        for i in 0..50 {
            assert_eq!(stream_seed_of(g, i), want(g, i));
            assert_ne!(stream_seed_of(g, i), stream_seed_of(next_generation_of(g), i));
            seen.push((g, stream_seed_of(g, i)));
        }
    }
    seen.sort();
    seen.dedup();
    assert_eq!(seen.len(), 150);
}

#[test]
fn xorshift_leaves_zero_alone() {
    assert_eq!(xorshift_step(0), 0);
    assert_eq!(xorshift_step(1), 1082269761);
    assert_ne!(xorshift_step(2), xorshift_step(3));
}

#[test]
fn pictures_are_read() {
    let image = read_image(b"P5\n# made by hand\n2 3\n255\n\x00\x01\x02\x03\x04\x05\x06").unwrap();
    assert_eq!((image.w, image.h), (2, 3));
    assert_eq!(image.px, vec![0, 1, 2, 3, 4, 5]);
    let err = |b: &[u8]| read_image(b).err().unwrap();
    assert_eq!(err(b""), "pgm: truncated");
    assert_eq!(err(b"P5"), "pgm: truncated");
    assert_eq!(err(b"P6 1 1 255 \x00"), "pgm: expected P5, got P6");
    assert_eq!(err(b"P5 18446744073709551616 1 255 \x00"), "pgm: bad width");
    assert_eq!(err(b"P5 3 3 255 \x00\x00"), "pgm: need 9 px, have 2");
    // even no pixels need the byte behind the header
    assert_eq!(err(b"P5 0 3 255"), "pgm: need 0 px, have 0");
    assert!(read_image(b"P5 0 3 255\n").unwrap().px.is_empty());
}
