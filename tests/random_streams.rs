use pathtracer::random::{FreshId, XorRand};
use pathtracer::render::pixel_seed;

#[test]
fn xorshift_sequence_from_seed_one() {
    let mut r = XorRand::new(1);
    assert_eq!(r.nexti(), 18399118);
    assert_eq!(r.nexti(), 1277603185);
}

#[test]
fn xorshift_sequence_from_seed_zero() {
    let mut r = XorRand::new(0);
    assert_eq!(r.nexti(), 1100652495);
    assert_eq!(r.nexti(), 1613216048);
}

#[test]
fn xorshift_same_seed_same_stream() {
    let mut a = XorRand::new(42);
    let mut b = XorRand::new(42);
    for _ in 0..100 {
        assert_eq!(a.nexti(), b.nexti());
    }
}

#[test]
fn xorshift_never_zero_from_good_seed() {
    let mut r = XorRand::new(pixel_seed(3, 5, 0));
    for _ in 0..10000 {
        assert_ne!(r.nexti(), 0);
    }
}

#[test]
fn fresh_ids_are_dense() {
    let mut f = FreshId::new();
    assert_eq!(f.gen_id(), 0);
    assert_eq!(f.gen_id(), 1);
    assert_eq!(f.gen_id(), 2);
}

#[test]
fn fresh_id_sources_are_independent() {
    let mut objects = FreshId::new();
    let mut media = FreshId::new();
    assert_eq!(objects.gen_id(), 0);
    assert_eq!(objects.gen_id(), 1);
    assert_eq!(media.gen_id(), 0);
}

#[test]
fn pixel_seed_values() {
    assert_eq!(pixel_seed(0, 0, 0), 0);
    assert_eq!(pixel_seed(3, 5, 0), 1844212097);
    assert_eq!(pixel_seed(5, 3, 0), 2602630077);
    assert_eq!(pixel_seed(799, 449, 7), 2226485296);
}

#[test]
fn pixel_seed_separates_symmetric_pixels() {
    assert_ne!(pixel_seed(3, 5, 0), pixel_seed(5, 3, 0));
    assert_ne!(pixel_seed(0, 7, 0), pixel_seed(0, 9, 0));
    assert_ne!(pixel_seed(4, 4, 0), pixel_seed(4, 4, 1));
}

#[test]
fn pixel_seed_avoids_stuck_stream() {
    for u in 0..64u32 {
        for v in 0..64u32 {
            assert_ne!(pixel_seed(u, v, 0), 123456789);
        }
    }
}
