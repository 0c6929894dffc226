use text_atlas::pow2::get_nearest_po2;
use text_atlas::sqrt::ceil_isqrt;

#[test]
fn po2_of_five_is_eight() {
    assert_eq!(get_nearest_po2(5), 8);
}

#[test]
fn po2_of_sixteen_is_sixteen() {
    assert_eq!(get_nearest_po2(16), 16);
}

#[test]
fn po2_of_one_is_one() {
    assert_eq!(get_nearest_po2(1), 1);
}

#[test]
fn po2_of_three_is_four() {
    assert_eq!(get_nearest_po2(3), 4);
}

#[test]
fn po2_at_the_top_of_the_range() {
    assert_eq!(get_nearest_po2(0x8000_0000), 0x8000_0000);
    assert_eq!(get_nearest_po2(0x4000_0001), 0x8000_0000);
}

#[test]
fn po2_is_idempotent_on_samples() {
    for x in [1u32, 2, 3, 5, 17, 100, 4096, 100_000] {
        let p = get_nearest_po2(x);
        assert_eq!(get_nearest_po2(p), p);
    }
}

#[test]
fn po2_is_monotonic_on_samples() {
    let mut prev = get_nearest_po2(1);
    for x in 2u32..200 {
        let p = get_nearest_po2(x);
        assert!(prev <= p);
        assert!(p >= x);
        prev = p;
    }
}

#[test]
fn ceil_isqrt_samples() {
    assert_eq!(ceil_isqrt(0), 0);
    assert_eq!(ceil_isqrt(1), 1);
    assert_eq!(ceil_isqrt(2), 2);
    assert_eq!(ceil_isqrt(121), 11);
    assert_eq!(ceil_isqrt(122), 12);
    assert_eq!(ceil_isqrt(128), 12);
    assert_eq!(ceil_isqrt(144), 12);
}
