use softbody::fixed::{isqrt, SCALE};
use softbody::vec2::Vec2;

#[test]
fn length_of_three_four_five() {
    let v = Vec2::new(3 * SCALE, 4 * SCALE);
    assert_eq!(v.length(), 5 * SCALE);
}

#[test]
fn integer_square_root_rounds_down() {
    assert_eq!(isqrt(0), 0);
    assert_eq!(isqrt(15), 3);
    assert_eq!(isqrt(16), 4);
    assert_eq!(isqrt(17), 4);
}

#[test]
fn normalize_gives_unit_length() {
    let v = Vec2::new(3 * SCALE, -4 * SCALE).normalize();
    assert_eq!(v, Vec2::new(600_000, -800_000));
    assert_eq!(Vec2::zero().normalize(), Vec2::zero());
}

#[test]
fn short_vectors_have_unit_length_too() {
    // one raw unit each way: the length is the root of two, not its integer part
    assert_eq!(Vec2::new(1, 1).normalize(), Vec2::new(707_106, 707_106));
    assert_eq!(Vec2::new(2, -2).normalize(), Vec2::new(707_106, -707_106));
    assert_eq!(Vec2::new(1, 0).normalize(), Vec2::new(SCALE, 0));
    assert_eq!(Vec2::new(0, -1).normalize(), Vec2::new(0, -SCALE));
    assert_eq!(Vec2::new(-3, 4).normalize(), Vec2::new(-600_000, 800_000));
    assert_eq!(Vec2::new(1, 2).normalize(), Vec2::new(447_213, 894_427));
}

#[test]
fn no_unit_vector_is_longer_than_one() {
    let samples: [i64; 12] =
        [0, 1, 2, 3, 7, 99, 1_000, 123_457, SCALE, 1 << 39, (1 << 40) - 1, 1 << 40];
    for x in samples {
        for y in samples {
            for (sx, sy) in [(1, 1), (-1, 1), (1, -1), (-1, -1)] {
                let v = Vec2::new(sx * x, sy * y);
                let u = v.normalize();
                let len_sq = (u.x as i128) * (u.x as i128) + (u.y as i128) * (u.y as i128);
                let one = (SCALE as i128) * (SCALE as i128);
                if v.is_zero() {
                    assert_eq!(u, Vec2::zero());
                } else {
                    assert!(len_sq <= one, "{:?} -> {:?}", v, u);
                    let least = (SCALE as i128 - 3) * (SCALE as i128 - 3);
                    assert!(len_sq >= least, "{:?} -> {:?}", v, u);
                }
            }
        }
    }
}

#[test]
fn long_vectors_keep_their_direction() {
    let far: i64 = 1 << 50;
    assert_eq!(Vec2::new(far, 0).normalize(), Vec2::new(SCALE, 0));
    assert_eq!(Vec2::new(3 * far, -4 * far).normalize(), Vec2::new(600_000, -800_000));
    assert_eq!(Vec2::new(far, far).normalize(), Vec2::new(707_106, 707_106));
}
